//! Link-layer packet frames and the byte-level wire pipeline.
//!
//! A `PacketData` frame carries up to 11 payload bytes plus a status byte
//! whose meaning is given by the `PacketStatus` state machine. The wire
//! pipeline expands the 12-byte frame with the Golay code, interleaves the
//! codeword bits and DC-balances the result into a 32-byte on-air burst.

use vstd::prelude::*;

verus! {

#[verifier::external_type_specification]
#[verifier::external_body]
#[verifier::reject_recursive_types(T)]
pub struct ExHeaplessVec<T, const N: usize>(heapless::Vec<T, N>);

/// The elements a fixed-capacity payload buffer holds, oldest first.
pub uninterp spec fn payload_bytes(v: heapless::Vec<u8, 11>) -> Seq<u8>;

/// Relies on heapless::Vec::new: a freshly constructed vector is empty.
#[verifier::external_body]
pub fn payload_new() -> (r: heapless::Vec<u8, 11>)
    ensures
        payload_bytes(r) == Seq::<u8>::empty(),
{
    heapless::Vec::new()
}

/// Relies on heapless::Vec::push: an element is appended when the vector is
/// below its capacity, and handed back unchanged when it is full.
#[verifier::external_body]
pub fn payload_push(v: &mut heapless::Vec<u8, 11>, b: u8) -> (ok: bool)
    ensures
        payload_bytes(*old(v)).len() < 11 ==> ok && payload_bytes(*final(v)) == payload_bytes(
            *old(v),
        ).push(b),
        payload_bytes(*old(v)).len() >= 11 ==> !ok && payload_bytes(*final(v)) == payload_bytes(
            *old(v),
        ),
{
    v.push(b).is_ok()
}

/// Relies on heapless::Vec::len: the element count, never above the capacity.
#[verifier::external_body]
pub fn payload_len(v: &heapless::Vec<u8, 11>) -> (r: usize)
    ensures
        r == payload_bytes(*v).len(),
        r <= 11,
{
    v.len()
}

/// Relies on the slice indexing that heapless::Vec derefs to.
#[verifier::external_body]
pub fn payload_get(v: &heapless::Vec<u8, 11>, i: usize) -> (r: u8)
    requires
        i < payload_bytes(*v).len(),
    ensures
        r == payload_bytes(*v)[i as int],
{
    v[i]
}

/// Relies on heapless::Vec's Clone: cloning copies the elements; for plain
/// bytes the clone holds the same sequence.
#[verifier::external_body]
pub fn payload_clone(v: &heapless::Vec<u8, 11>) -> (r: heapless::Vec<u8, 11>)
    ensures
        payload_bytes(r) == payload_bytes(*v),
{
    v.clone()
}

/// Relies on heapless::Vec::as_slice: a view of the held elements.
#[verifier::external_body]
pub fn payload_as_slice(v: &heapless::Vec<u8, 11>) -> (r: &[u8])
    ensures
        r@ == payload_bytes(*v),
{
    v.as_slice()
}

/// Append a run of bytes to a payload buffer that has room for them.
pub fn payload_extend(v: &mut heapless::Vec<u8, 11>, bytes: &[u8])
    requires
        payload_bytes(*old(v)).len() + bytes@.len() <= 11,
    ensures
        payload_bytes(*final(v)) == payload_bytes(*old(v)) + bytes@,
{
    let mut i: usize = 0;
    proof {
        assert(payload_bytes(*v) =~= payload_bytes(*v) + bytes@.take(0));
    }
    while i < bytes.len()
        invariant
            i <= bytes@.len(),
            payload_bytes(*v) == payload_bytes(*old(v)) + bytes@.take(i as int),
            payload_bytes(*old(v)).len() + bytes@.len() <= 11,
        decreases bytes@.len() - i,
    {
        let b = bytes[i];
        let ok = payload_push(v, b);
        proof {
            assert(payload_bytes(*v) =~= payload_bytes(*old(v)) + bytes@.take(i + 1));
        }
        i = i + 1;
    }
    proof {
        assert(bytes@.take(bytes@.len() as int) =~= bytes@);
    }
}

/// Status of a packet in the original framing mode: a continuation pair and
/// a 4-bit per-packet checksum.
#[derive(Clone, Copy, Eq, PartialEq, Structural, Debug)]
pub struct PacketStatusLegacy {
    pub first: bool,
    pub last: bool,
    pub checksum4: u8,
}

/// Status of a first-of-group packet in the V2 framing mode.
#[derive(Clone, Copy, Eq, PartialEq, Structural, Debug)]
pub struct PacketStatusV2 {
    /// The whole message fits in this single packet.
    pub short: bool,
    /// The header carries only the node id and follow-up packets have no
    /// CRC but use the status byte for one more data byte.
    pub naked: bool,
    /// The transmitter switches to receive mode after this packet is sent.
    pub listens: bool,
}

impl PacketStatusV2 {
    /// A naked-mode first packet status.
    pub fn naked() -> (r: PacketStatusV2)
        ensures
            r == (PacketStatusV2 { short: false, naked: true, listens: false }),
    {
        PacketStatusV2 { short: false, naked: true, listens: false }
    }

    /// A single-packet (short) first packet status.
    pub fn short() -> (r: PacketStatusV2)
        ensures
            r == (PacketStatusV2 { short: true, naked: false, listens: false }),
    {
        PacketStatusV2 { short: true, naked: false, listens: false }
    }

    /// The same status with the listen flag replaced.
    pub fn listens(self, listens: bool) -> (r: PacketStatusV2)
        ensures
            r == (PacketStatusV2 { listens, ..self }),
    {
        PacketStatusV2 { listens, ..self }
    }
}

impl Default for PacketStatusV2 {
    /// A plain multi-packet V2 status.
    fn default() -> (r: PacketStatusV2)
        ensures
            r == (PacketStatusV2 { short: false, naked: false, listens: false }),
    {
        PacketStatusV2 { short: false, naked: false, listens: false }
    }
}

/// The status byte of a link-layer packet, as a tagged state machine: the
/// previous packet's status decides how the next raw byte is classified.
#[derive(Clone, Copy, Eq, PartialEq, Structural, Debug)]
pub enum PacketStatus {
    /// The original framing mode, one checksum per packet.
    Legacy(PacketStatusLegacy),
    /// First packet of a V2 group.
    V2(PacketStatusV2),
    /// Continuation of a V2 group: the status byte is a running CRC.
    CRC8P(u8),
    /// Start state while decoding.
    Unknown,
    /// Received status byte before classification.
    Raw(u8),
    /// Naked mode continuation: the status byte is one more payload byte.
    Data(u8),
    /// Internally prepared, never transmitted.
    Internal,
}

impl Default for PacketStatus {
    /// Decoding starts in the unclassified state.
    fn default() -> (r: PacketStatus)
        ensures
            r == PacketStatus::Unknown,
    {
        PacketStatus::Unknown
    }
}

/// The wire byte a status encodes to.
pub open spec fn status_encode_spec(s: PacketStatus) -> u8 {
    match s {
        PacketStatus::Legacy(l) => (if l.first {
            0x4u8
        } else {
            0u8
        }) | (if !l.last {
            0x1u8
        } else {
            0u8
        }) | (l.checksum4 << 4),
        PacketStatus::V2(v) => (if v.listens {
            0x8u8
        } else {
            0u8
        }) | (if v.naked {
            0x2u8
        } else {
            0u8
        }) | (if !v.short {
            0x1u8
        } else {
            0u8
        }),
        PacketStatus::CRC8P(c) => c,
        PacketStatus::Unknown => 0,
        PacketStatus::Raw(r) => r,
        PacketStatus::Data(d) => d,
        PacketStatus::Internal => 0,
    }
}

/// How the previous status classifies the next raw status byte.
pub open spec fn status_decode_spec(s: PacketStatus, next: u8) -> PacketStatus {
    match s {
        PacketStatus::Legacy(_) => PacketStatus::Legacy(
            PacketStatusLegacy { first: next & 0x4 > 0, last: next & 0x1 == 0, checksum4: next >> 4 },
        ),
        PacketStatus::V2(v) => if v.naked {
            PacketStatus::Data(next)
        } else {
            PacketStatus::CRC8P(next)
        },
        PacketStatus::Unknown => if next & 0x4 > 0 {
            PacketStatus::Legacy(
                PacketStatusLegacy {
                    first: next & 0x4 > 0,
                    last: next & 0x1 == 0,
                    checksum4: next >> 4,
                },
            )
        } else {
            PacketStatus::V2(
                PacketStatusV2 { short: next & 0x1 == 0, listens: next & 0x8 > 0, naked: next & 0x2 > 0 },
            )
        },
        PacketStatus::CRC8P(_) => PacketStatus::CRC8P(next),
        PacketStatus::Raw(_) => PacketStatus::Raw(next),
        PacketStatus::Data(_) => PacketStatus::Data(next),
        PacketStatus::Internal => PacketStatus::Internal,
    }
}

/// Whether a packet with this status ends its message.
pub open spec fn status_finished_spec(s: PacketStatus) -> bool {
    match s {
        PacketStatus::Legacy(l) => l.last,
        PacketStatus::V2(v) => v.short,
        PacketStatus::CRC8P(_) => false,
        PacketStatus::Unknown => true,
        PacketStatus::Raw(_) => false,
        PacketStatus::Data(_) => false,
        PacketStatus::Internal => true,
    }
}

impl PacketStatus {
    /// Whether a packet with this status ends its message.
    pub fn finished(&self) -> (r: bool)
        ensures
            r == status_finished_spec(*self),
    {
        match self {
            PacketStatus::Legacy(legacy) => legacy.last,
            PacketStatus::V2(v2) => v2.short,
            PacketStatus::CRC8P(_) => false,
            PacketStatus::Unknown => true,
            PacketStatus::Raw(_) => false,
            PacketStatus::Data(_) => false,
            PacketStatus::Internal => true,
        }
    }

    /// Classify the next raw status byte, given this packet's status.
    pub fn decode(&self, next: u8) -> (r: PacketStatus)
        ensures
            r == status_decode_spec(*self, next),
    {
        match self {
            PacketStatus::Legacy(_) => PacketStatus::Legacy(
                PacketStatusLegacy {
                    first: next & 0x4 > 0,
                    last: next & 0x1 == 0,
                    checksum4: next >> 4,
                },
            ),
            PacketStatus::V2(v2) => {
                if v2.naked {
                    PacketStatus::Data(next)
                } else {
                    PacketStatus::CRC8P(next)
                }
            },
            PacketStatus::Unknown => {
                if next & 0x4 > 0 {
                    PacketStatus::Legacy(
                        PacketStatusLegacy {
                            first: next & 0x4 > 0,
                            last: next & 0x1 == 0,
                            checksum4: next >> 4,
                        },
                    )
                } else {
                    PacketStatus::V2(
                        PacketStatusV2 {
                            short: next & 0x1 == 0,
                            listens: next & 0x8 > 0,
                            naked: next & 0x2 > 0,
                        },
                    )
                }
            },
            PacketStatus::CRC8P(_) => PacketStatus::CRC8P(next),
            PacketStatus::Raw(_) => PacketStatus::Raw(next),
            PacketStatus::Data(_) => PacketStatus::Data(next),
            PacketStatus::Internal => PacketStatus::Internal,
        }
    }

    /// The wire byte this status encodes to.
    pub fn encode(&self) -> (r: u8)
        ensures
            r == status_encode_spec(*self),
    {
        match self {
            PacketStatus::Legacy(legacy) => {
                let f: u8 = if legacy.first {
                    0x4
                } else {
                    0
                };
                let t: u8 = if !legacy.last {
                    0x1
                } else {
                    0
                };
                (f | t) | (legacy.checksum4 << 4)
            },
            PacketStatus::V2(status_v2) => {
                let a: u8 = if status_v2.listens {
                    0x8
                } else {
                    0
                };
                let b: u8 = if status_v2.naked {
                    0x2
                } else {
                    0
                };
                let c: u8 = if !status_v2.short {
                    0x1
                } else {
                    0
                };
                (a | b) | c
            },
            PacketStatus::CRC8P(crc) => *crc,
            PacketStatus::Unknown | PacketStatus::Internal => 0x00,
            PacketStatus::Raw(raw) => *raw,
            PacketStatus::Data(raw) => *raw,
        }
    }

    /// A legacy status with the given continuation pair and a zero checksum.
    pub fn legacy(first: bool, last: bool) -> (r: PacketStatus)
        ensures
            r == PacketStatus::Legacy(PacketStatusLegacy { first, last, checksum4: 0 }),
    {
        PacketStatus::Legacy(PacketStatusLegacy { first, last, checksum4: 0 })
    }
}

/// Every on-air status variant decodes back to itself from its wire byte:
/// a legacy status after a legacy packet (or, with the first flag set, at
/// the start of a stream), a V2 status at the start of a stream, a CRC
/// status after a V2 group head or another CRC packet.
pub proof fn lemma_status_roundtrip(prior: PacketStatus, v: PacketStatus)
    requires
        match v {
            PacketStatus::Legacy(l) => l.checksum4 < 16 && ((prior is Legacy) || (l.first && prior
                == PacketStatus::Unknown)),
            PacketStatus::V2(_) => prior == PacketStatus::Unknown,
            PacketStatus::CRC8P(_) => (prior matches PacketStatus::V2(p2) && !p2.naked) || (
            prior is CRC8P),
            _ => false,
        },
    ensures
        status_decode_spec(prior, status_encode_spec(v)) == v,
{
    match v {
        PacketStatus::Legacy(l) => {
            let f: u8 = if l.first {
                0x4u8
            } else {
                0u8
            };
            let t: u8 = if !l.last {
                0x1u8
            } else {
                0u8
            };
            let chk: u8 = l.checksum4;
            let e = (f | t) | (chk << 4);
            assert((f == 0 || f == 4) && (t == 0 || t == 1) && chk < 16 ==> ((e & 0x4 > 0) == (f
                == 0x4)) && ((e & 0x1 == 0) == (t == 0)) && (e >> 4 == chk)) by (bit_vector)
                requires
                    e == (f | t) | (chk << 4),
            ;
        },
        PacketStatus::V2(p) => {
            let a: u8 = if p.listens {
                0x8u8
            } else {
                0u8
            };
            let b: u8 = if p.naked {
                0x2u8
            } else {
                0u8
            };
            let c: u8 = if !p.short {
                0x1u8
            } else {
                0u8
            };
            let e = (a | b) | c;
            assert(a <= 8 && b <= 2 && c <= 1 && (a == 0 || a == 8) && (b == 0 || b == 2) && (c == 0
                || c == 1) ==> (e & 0x4 == 0) && ((e & 0x1 == 0) == (c == 0)) && ((e & 0x8 > 0) == (
            a == 8)) && ((e & 0x2 > 0) == (b == 2))) by (bit_vector)
                requires
                    e == (a | b) | c,
            ;
        },
        PacketStatus::CRC8P(_) => {
        },
        _ => {
        },
    }
}

/// The wrapping 8-bit sum of the first `n` payload bytes, seeded with 0x55.
pub open spec fn csum_acc(data: Seq<u8>, n: nat) -> u8
    decreases n,
{
    if n == 0 {
        0x55
    } else {
        ((csum_acc(data, (n - 1) as nat) + data[n - 1]) % 256) as u8
    }
}

/// The status a frame should carry: for a legacy status the 4-bit checksum
/// is recomputed over the payload and the status byte with a zeroed
/// checksum field, folded to a nibble sum; all other statuses are kept.
pub open spec fn compute_status_spec(data: Seq<u8>, status: PacketStatus) -> PacketStatus {
    match status {
        PacketStatus::Legacy(l) => {
            let base = csum_acc(data, data.len());
            let with_status = ((base + status_encode_spec(
                PacketStatus::Legacy(PacketStatusLegacy { checksum4: 0, ..l }),
            )) % 256) as u8;
            let folded = (((with_status >> 4) + (with_status & 0xf)) % 16) as u8;
            PacketStatus::Legacy(PacketStatusLegacy { checksum4: folded, ..l })
        },
        _ => status,
    }
}

/// A link-layer frame: up to 11 payload bytes and a status.
#[derive(Debug, PartialEq, Eq)]
pub struct PacketData {
    pub data: heapless::Vec<u8, 11>,
    pub status: PacketStatus,
}

/// The 12 wire bytes of a frame: the payload zero-padded to 11 bytes,
/// followed by the encoded, checksummed status byte.
pub open spec fn wire_spec(data: Seq<u8>, status: PacketStatus) -> Seq<u8> {
    Seq::new(
        12,
        |i: int|
            if i < 11 {
                if i < data.len() {
                    data[i]
                } else {
                    0u8
                }
            } else {
                status_encode_spec(compute_status_spec(data, status))
            },
    )
}

impl Clone for PacketData {
    /// A clone holds the same payload bytes and status.
    fn clone(&self) -> (r: Self)
        ensures
            r.payload() == self.payload(),
            r.status == self.status,
    {
        PacketData { data: payload_clone(&self.data), status: self.status }
    }
}

impl Clone for GolayDecoderResult {
    /// A clone holds the same frame and counters.
    fn clone(&self) -> (r: Self)
        ensures
            r.data.payload() == self.data.payload(),
            r.data.status == self.data.status,
            r.parity_errors == self.parity_errors,
            r.errors == self.errors,
    {
        GolayDecoderResult {
            data: self.data.clone(),
            parity_errors: self.parity_errors,
            errors: self.errors,
        }
    }
}

impl PacketData {
    /// The payload bytes this frame holds.
    pub open spec fn payload(&self) -> Seq<u8> {
        payload_bytes(self.data)
    }

    /// The payload never exceeds the fixed frame capacity.
    pub open spec fn wf(&self) -> bool {
        self.payload().len() <= 11
    }

    /// An empty, unclassified frame.
    pub fn new() -> (r: PacketData)
        ensures
            r.payload() == Seq::<u8>::empty(),
            r.status == PacketStatus::Unknown,
            r.wf(),
    {
        PacketData { data: payload_new(), status: PacketStatus::Unknown }
    }

    /// The status this frame should carry, with the legacy checksum
    /// recomputed from its bytes.
    pub fn compute_status(&self) -> (r: PacketStatus)
        requires
            self.wf(),
        ensures
            r == compute_status_spec(self.payload(), self.status),
    {
        match self.status {
            PacketStatus::Legacy(legacy) => {
                let mut checksum8: u8 = 0x55;
                let n = payload_len(&self.data);
                let mut i: usize = 0;
                while i < n
                    invariant
                        i <= n,
                        n == self.payload().len(),
                        checksum8 == csum_acc(self.payload(), i as nat),
                    decreases n - i,
                {
                    let b = payload_get(&self.data, i);
                    checksum8 = checksum8.wrapping_add(b);
                    i = i + 1;
                }
                let strip_chsum = PacketStatus::Legacy(
                    PacketStatusLegacy { checksum4: 0, ..legacy },
                );
                checksum8 = checksum8.wrapping_add(strip_chsum.encode());
                let ucrc = checksum8 >> 4;
                let lcrc = checksum8 & 0xf;
                proof {
                    assert((checksum8 >> 4) + (checksum8 & 0xf) < 256 && ((((checksum8 >> 4) + (
                    checksum8 & 0xf)) as u8) & 0xf) == ((((checksum8 >> 4) + (checksum8 & 0xf))
                        % 16) as u8)) by (bit_vector);
                }
                let checksum4 = (ucrc + lcrc) & 0xf;
                PacketStatus::Legacy(PacketStatusLegacy { checksum4, ..legacy })
            },
            _ => self.status,
        }
    }

    /// Whether the carried status matches the recomputed one; only a legacy
    /// status actually checks anything.
    pub fn check_valid(&self) -> (r: bool)
        requires
            self.wf(),
        ensures
            r == (compute_status_spec(self.payload(), self.status) == self.status),
    {
        let computed = self.compute_status();
        computed == self.status
    }

    /// The 12 wire bytes of this frame: payload padded with zeroes, then the
    /// checksummed status byte.
    pub fn to_wire_data(&self) -> (r: [u8; 12])
        requires
            self.wf(),
        ensures
            r@ == wire_spec(self.payload(), self.status),
    {
        let mut out: [u8; 12] = [0; 12];
        let n = payload_len(&self.data);
        let mut i: usize = 0;
        while i < n
            invariant
                i <= n,
                n == self.payload().len(),
                n <= 11,
                forall|m: int| 0 <= m < i ==> #[trigger] out@[m] == self.payload()[m],
                forall|m: int| i <= m < 12 ==> #[trigger] out@[m] == 0u8,
            decreases n - i,
        {
            let b = payload_get(&self.data, i);
            out[i] = b;
            i = i + 1;
        }
        let status_byte = self.compute_status().encode();
        out[11] = status_byte;
        proof {
            assert(out@ =~= wire_spec(self.payload(), self.status));
        }
        out
    }

    /// Run the full transmit pipeline: Golay-expand the wire frame,
    /// interleave the codeword bits, and DC-balance into 32 on-air bytes.
    pub fn encode_for_transmit(&self) -> (r: PacketWithoutDC)
        requires
            self.wf(),
        ensures
            r.data@ == crate::dc::dc_encode_spec(
                crate::interleave::interleave_spec(
                    crate::golay::golay_group_spec(wire_spec(self.payload(), self.status)),
                ),
            ),
    {
        let p = PacketWithGolay::from_packet(self);
        let p = PacketWithInterleave::from_golay(&p);
        PacketWithoutDC::from_interleaved(&p)
    }
}

/// A frame after Golay expansion: eight 24-bit codewords in 24 bytes.
#[derive(Copy, Clone, Eq, PartialEq, Debug)]
pub struct PacketWithGolay {
    pub data: [u8; 24],
}

/// A decoded frame together with the error counters of its Golay decode.
#[derive(Debug)]
pub struct GolayDecoderResult {
    pub data: PacketData,
    pub parity_errors: usize,
    pub errors: usize,
}

impl PacketWithGolay {
    /// An all-zero Golay buffer.
    pub fn new() -> (r: Self)
        ensures
            r.data@ == Seq::new(24, |i: int| 0u8),
    {
        let r = PacketWithGolay { data: [0; 24] };
        proof {
            assert(r.data@ =~= Seq::new(24, |i: int| 0u8));
        }
        r
    }

    /// Golay-expand a frame's 12 wire bytes into eight codewords.
    pub fn from_packet(p: &PacketData) -> (r: Self)
        requires
            p.wf(),
        ensures
            r.data@ == crate::golay::golay_group_spec(wire_spec(p.payload(), p.status)),
    {
        let wire = p.to_wire_data();
        PacketWithGolay { data: crate::golay::golay_encode_wire(&wire) }
    }

    /// Rebuild the codewords from their interleaved image.
    pub fn from_interleaved(p: &PacketWithInterleave) -> (r: Self)
        ensures
            r.data@ == crate::interleave::deinterleave_spec(p.data@),
    {
        PacketWithGolay { data: crate::interleave::deinterleave24(&p.data) }
    }
}

impl GolayDecoderResult {
    /// Decode the eight codewords of a Golay buffer into a frame tagged with
    /// its raw status byte, summing corrected bit errors and parity
    /// violations. Clean codewords decode exactly with zero counters.
    pub fn from_golay(golay: &PacketWithGolay) -> (r: Self)
        ensures
            r.data.wf(),
            r.data.payload().len() == 11,
            r.errors <= 24,
            r.parity_errors <= 8,
            (forall|k: int|
                0 <= k < 8 ==> crate::golay::syndrome_spec(
                    #[trigger] crate::interleave::word_spec(golay.data@, k),
                ) == 0 && crate::golay::parity24_spec(crate::interleave::word_spec(golay.data@, k))
                    == 0) ==> (r.data.payload() == crate::golay::unpack_spec(golay.data@).take(11)
                && r.data.status == PacketStatus::Raw(crate::golay::unpack_spec(golay.data@)[11])
                && r.errors == 0 && r.parity_errors == 0),
            forall|g2: Seq<u8>|
                #[trigger] crate::golay::golay_close(golay.data@, g2) ==> r.data.payload()
                    == crate::golay::unpack_spec(g2).take(11) && r.data.status == PacketStatus::Raw(
                    crate::golay::unpack_spec(g2)[11],
                ) && r.errors == crate::golay::flips_sum(golay.data@, g2, 8),
            r.data.status is Raw,
    {
        let (buff, errors, parity_errors) = crate::golay::golay_decode24(&golay.data);
        let mut data = payload_new();
        let mut i: usize = 0;
        while i < 11
            invariant
                i <= 11,
                payload_bytes(data) == buff@.take(i as int),
            decreases 11 - i,
        {
            proof {
                assert(payload_bytes(data).len() == i);
            }
            let ok = payload_push(&mut data, buff[i]);
            proof {
                assert(payload_bytes(data) =~= buff@.take(i + 1));
            }
            i = i + 1;
        }
        let status = PacketStatus::Raw(buff[11]);
        proof {
            assert(buff@.take(11) =~= buff@.take(11));
        }
        GolayDecoderResult {
            data: PacketData { data, status },
            parity_errors,
            errors,
        }
    }
}

/// A frame after bit interleaving: 24 bytes, each carrying one bit of every
/// codeword.
#[derive(Copy, Clone, Eq, PartialEq, Debug)]
pub struct PacketWithInterleave {
    pub data: [u8; 24],
}

impl PacketWithInterleave {
    /// An all-zero interleaved buffer.
    pub fn new() -> (r: Self)
        ensures
            r.data@ == Seq::new(24, |i: int| 0u8),
    {
        let r = PacketWithInterleave { data: [0; 24] };
        proof {
            assert(r.data@ =~= Seq::new(24, |i: int| 0u8));
        }
        r
    }

    /// Interleave the bits of eight Golay codewords.
    pub fn from_golay(p: &PacketWithGolay) -> (r: Self)
        ensures
            r.data@ == crate::interleave::interleave_spec(p.data@),
    {
        PacketWithInterleave { data: crate::interleave::interleave24(&p.data) }
    }

    /// Strip the DC balancing of a 32-byte burst back into 24 bytes.
    pub fn from_radio(p: &PacketWithoutDC) -> (r: Self)
        ensures
            r.data@ == crate::dc::dc_decode_spec(p.data@),
    {
        PacketWithInterleave { data: crate::dc::dc_decode32(&p.data) }
    }
}

/// The final 32-byte on-air burst, DC-balanced with the 6b/8b line code.
#[derive(Copy, Clone, Eq, PartialEq, Debug)]
pub struct PacketWithoutDC {
    pub data: [u8; 32],
}

impl PacketWithoutDC {
    /// A burst from received radio bytes; missing bytes stay zero and extra
    /// bytes are ignored.
    pub fn new(d: &[u8]) -> (r: Self)
        ensures
            forall|i: int|
                0 <= i < 32 ==> #[trigger] r.data@[i] == if i < d@.len() {
                    d@[i]
                } else {
                    0u8
                },
    {
        let mut s = PacketWithoutDC { data: [0; 32] };
        let n = if d.len() < 32 {
            d.len()
        } else {
            32
        };
        let mut i: usize = 0;
        while i < n
            invariant
                i <= n,
                n <= 32,
                n <= d@.len(),
                n == if d@.len() < 32 {
                    d@.len() as int
                } else {
                    32
                },
                forall|m: int| 0 <= m < i ==> #[trigger] s.data@[m] == d@[m],
                forall|m: int| i <= m < 32 ==> #[trigger] s.data@[m] == 0u8,
            decreases n - i,
        {
            let b = d[i];
            s.data[i] = b;
            i = i + 1;
        }
        s
    }

    /// The 32 on-air bytes.
    pub fn data(&self) -> (r: [u8; 32])
        ensures
            r@ == self.data@,
    {
        self.data
    }

    /// DC-balance an interleaved buffer into the on-air form.
    pub fn from_interleaved(p: &PacketWithInterleave) -> (r: Self)
        ensures
            r.data@ == crate::dc::dc_encode_spec(p.data@),
    {
        PacketWithoutDC { data: crate::dc::dc_encode24(&p.data) }
    }
}

} // verus!
