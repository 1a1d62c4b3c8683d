//! Transmit segmenter: splits a logical message into link-layer packets.
//!
//! The first packet of a message carries the varlength-encoded packet type
//! (except in naked mode) and source address. Remaining payload is spread
//! over follow-up packets whose shape depends on the framing mode: legacy
//! packets carry per-packet checksums and continuation flags, V2 groups end
//! every follow-up packet with a running CRC, naked groups ship one extra
//! payload byte in each follow-up status byte.

use vstd::prelude::*;
use crate::crc8::{crc8_checksum, crc8_of};
use crate::message::{Message, MessageVersion};
use crate::packet::{
    compute_status_spec, payload_bytes, payload_extend, payload_get, payload_len, payload_new,
    payload_push, status_encode_spec, PacketData, PacketStatus, PacketStatusLegacy, PacketStatusV2,
};
use crate::util::{lemma_varlength_len5, varlength_spec};

verus! {

/// The `room` bytes of `data` starting at `from`, zero-padded past its end.
pub open spec fn take_fill(data: Seq<u8>, from: int, room: int) -> Seq<u8> {
    Seq::new(
        room as nat,
        |i: int|
            if from + i < data.len() {
                data[from + i]
            } else {
                0u8
            },
    )
}

/// How many payload bytes a packet with `room` free bytes consumes when
/// `from` bytes of a `len`-byte payload are already sent.
pub open spec fn consumed(len: int, from: int, room: int) -> int {
    if len - from <= room {
        len - from
    } else {
        room
    }
}

/// The code a packet-type header field carries: the type, or zero when the
/// message has none.
pub open spec fn opt_code(ptype: Option<u32>) -> u32 {
    match ptype {
        Some(t) => t,
        None => 0,
    }
}

/// The header bytes of a first packet: the varlength packet type (unless
/// suppressed) followed by the varlength source address.
pub open spec fn header_spec(ptype: Option<u32>, addr: u32, with_type: bool) -> Seq<u8> {
    (if with_type {
        varlength_spec(opt_code(ptype))
    } else {
        Seq::<u8>::empty()
    }) + varlength_spec(addr)
}

/// The status the first packet of a message carries.
pub open spec fn initial_status(version: MessageVersion, listens: bool) -> PacketStatus {
    match version {
        MessageVersion::LegacyLaso => PacketStatus::Legacy(
            PacketStatusLegacy { first: true, last: true, checksum4: 0 },
        ),
        MessageVersion::V2 => PacketStatus::V2(
            PacketStatusV2 { short: false, naked: false, listens },
        ),
        MessageVersion::V2Short => PacketStatus::V2(
            PacketStatusV2 { short: true, naked: false, listens },
        ),
        MessageVersion::Naked => PacketStatus::V2(
            PacketStatusV2 { short: false, naked: true, listens },
        ),
        MessageVersion::NakedShort => PacketStatus::V2(
            PacketStatusV2 { short: true, naked: true, listens },
        ),
    }
}

/// Splits a message into an ordered sequence of packets; `packet` hands the
/// next one out as long as `data_to_send` says more are owed.
pub struct MessageSender<const N: usize> {
    /// The message being sent.
    pub message: Message<N>,
    /// Status template for the next generated packet.
    pub next_status: PacketStatus,
    /// A V2 group whose head was emitted still owes a CRC follow-up packet
    /// even when no payload remains.
    pub force_next: bool,
    /// Number of payload bytes already emitted.
    pub sent: usize,
    /// Every byte fed to the running CRC digest of the current group.
    pub crc_fed: Vec<u8>,
}

impl<const N: usize> MessageSender<N> {
    /// The sender's bookkeeping stays inside the message bounds, and the
    /// status template is one a sender can hold.
    pub open spec fn wf(&self) -> bool {
        &&& self.message.wf()
        &&& self.sent <= self.message.data@.len()
        &&& match self.next_status {
            PacketStatus::Legacy(l) => l.checksum4 == 0 && l.last && !self.force_next,
            PacketStatus::V2(_) => !self.force_next,
            PacketStatus::CRC8P(c) => c == 0,
            PacketStatus::Data(d) => d == 0 && !self.force_next,
            _ => false,
        }
    }

    /// A fresh sender for a message: nothing sent, the first-packet status
    /// chosen from the framing mode.
    pub fn new(message: Message<N>) -> (r: MessageSender<N>)
        requires
            message.wf(),
        ensures
            r.message == message,
            r.next_status == initial_status(message.version, message.will_listen),
            r.force_next == false,
            r.sent == 0,
            r.crc_fed@ == Seq::<u8>::empty(),
            r.wf(),
    {
        let version = message.version;
        let listens = message.will_listen;
        MessageSender {
            message,
            next_status: match version {
                MessageVersion::LegacyLaso => PacketStatus::legacy(true, true),
                MessageVersion::V2 => PacketStatus::V2(PacketStatusV2::default().listens(listens)),
                MessageVersion::V2Short => PacketStatus::V2(
                    PacketStatusV2::short().listens(listens),
                ),
                MessageVersion::Naked => PacketStatus::V2(PacketStatusV2::naked().listens(listens)),
                MessageVersion::NakedShort => PacketStatus::V2(
                    (PacketStatusV2 { short: true, naked: true, listens }),
                ),
            },
            sent: 0,
            force_next: false,
            crc_fed: Vec::new(),
        }
    }

    /// Whether another packet is owed: payload remains, or a V2 group head
    /// still owes its CRC follow-up.
    pub fn data_to_send(&self) -> (r: bool)
        ensures
            r == (self.sent < self.message.data@.len() || self.force_next),
    {
        self.sent < self.message.data.len() || self.force_next
    }

    /// Build the next packet and advance the sender: headers on a first
    /// packet, payload fill, zero padding, continuation flags and checksum
    /// for legacy packets, the running CRC for V2 packets, and the extra
    /// status-byte payload in naked mode.
    #[verifier::rlimit(100)]
    #[verifier::spinoff_prover]
    pub fn packet(&mut self) -> (p: PacketData)
        requires
            old(self).wf(),
        ensures
            p.wf(),
            p.payload().len() == 11,
            final(self).wf(),
            final(self).message == old(self).message,
            (match old(self).next_status {
                PacketStatus::Legacy(l) => {
                    let m = old(self).message;
                    let h = if l.first {
                        header_spec(m.packet_type, m.source_address, true)
                    } else {
                        Seq::<u8>::empty()
                    };
                    let room = 11 - h.len();
                    let body = take_fill(m.data@, old(self).sent as int, room as int);
                    let sent2 = old(self).sent + consumed(
                        m.data@.len() as int,
                        old(self).sent as int,
                        room as int,
                    );
                    let last2 = !(sent2 < m.data@.len());
                    &&& l.first ==> h.len() <= 10
                    &&& p.payload() == h + body
                    &&& p.status == compute_status_spec(
                        h + body,
                        PacketStatus::Legacy(
                            (PacketStatusLegacy { first: l.first, last: last2, checksum4: 0 }),
                        ),
                    )
                    &&& final(self).sent == sent2
                    &&& final(self).next_status == PacketStatus::Legacy(
                        (PacketStatusLegacy { first: false, last: true, checksum4: 0 }),
                    )
                    &&& final(self).force_next == false
                    &&& final(self).crc_fed@ == old(self).crc_fed@
                },
                PacketStatus::V2(v2) => {
                    let m = old(self).message;
                    let h = header_spec(m.packet_type, m.source_address, !v2.naked);
                    let cap: int = if v2.short && !v2.naked {
                        10
                    } else {
                        11
                    };
                    let room = cap - h.len();
                    let body = take_fill(m.data@, old(self).sent as int, room);
                    let sent2 = old(self).sent + consumed(
                        m.data@.len() as int,
                        old(self).sent as int,
                        room,
                    );
                    let fed = if v2.naked {
                        Seq::<u8>::empty()
                    } else {
                        h + body + seq![status_encode_spec(PacketStatus::V2(v2))]
                    };
                    &&& h.len() <= cap
                    &&& p.status == PacketStatus::V2(v2)
                    &&& p.payload() == if v2.short && !v2.naked {
                        h + body + seq![crc8_of(fed)]
                    } else {
                        h + body
                    }
                    &&& final(self).sent == sent2
                    &&& final(self).next_status == if v2.naked {
                        PacketStatus::Data(0)
                    } else {
                        PacketStatus::CRC8P(0)
                    }
                    &&& final(self).force_next == (!v2.naked && !v2.short)
                    &&& final(self).crc_fed@ == fed
                },
                PacketStatus::CRC8P(_) => {
                    let m = old(self).message;
                    let body = take_fill(m.data@, old(self).sent as int, 11);
                    let sent2 = old(self).sent + consumed(
                        m.data@.len() as int,
                        old(self).sent as int,
                        11,
                    );
                    let fed = old(self).crc_fed@ + body;
                    &&& p.payload() == body
                    &&& p.status == PacketStatus::CRC8P(crc8_of(fed))
                    &&& final(self).sent == sent2
                    &&& final(self).next_status == old(self).next_status
                    &&& final(self).force_next == false
                    &&& final(self).crc_fed@ == fed
                },
                PacketStatus::Data(_) => {
                    let m = old(self).message;
                    let body = take_fill(m.data@, old(self).sent as int, 11);
                    let sent1 = old(self).sent + consumed(
                        m.data@.len() as int,
                        old(self).sent as int,
                        11,
                    );
                    let extra: u8 = if sent1 < m.data@.len() {
                        m.data@[sent1 as int]
                    } else {
                        0
                    };
                    let sent2 = if sent1 < m.data@.len() {
                        sent1 + 1
                    } else {
                        sent1 as int
                    };
                    &&& p.payload() == body
                    &&& p.status == PacketStatus::Data(extra)
                    &&& final(self).sent == sent2
                    &&& final(self).next_status == old(self).next_status
                    &&& final(self).force_next == old(self).force_next
                    &&& final(self).crc_fed@ == old(self).crc_fed@
                },
                _ => true,
            }),
    {
        let mut data = payload_new();
        let mut capacity: usize = 11;
        let status0 = self.next_status;

        match status0 {
            PacketStatus::Legacy(legacy) => {
                if legacy.first {
                    let t = match self.message.packet_type {
                        Some(t) => t,
                        None => 0,
                    };
                    let tb = crate::util::encode_varlength(t);
                    let ab = crate::util::encode_varlength(self.message.source_address);
                    proof {
                        lemma_varlength_len5(t);
                        lemma_varlength_len5(self.message.source_address);
                    }
                    payload_extend(&mut data, tb.as_slice());
                    payload_extend(&mut data, ab.as_slice());
                }
                self.next_status = PacketStatus::legacy(false, true);
            },
            PacketStatus::V2(v2) => {
                if !v2.naked {
                    let t = match self.message.packet_type {
                        Some(t) => t,
                        None => 0,
                    };
                    let tb = crate::util::encode_varlength(t);
                    proof {
                        lemma_varlength_len5(t);
                    }
                    payload_extend(&mut data, tb.as_slice());
                }
                let ab = crate::util::encode_varlength(self.message.source_address);
                proof {
                    lemma_varlength_len5(self.message.source_address);
                }
                payload_extend(&mut data, ab.as_slice());
                self.crc_fed = Vec::new();
                if v2.naked {
                    self.next_status = PacketStatus::Data(0);
                } else {
                    self.next_status = PacketStatus::CRC8P(0);
                    if v2.short {
                        capacity = 10;
                    }
                    self.force_next = !v2.short;
                }
            },
            _ => {},
        }

        let ghost h = payload_bytes(data);
        proof {
            match status0 {
                PacketStatus::Legacy(l) => {
                    if l.first {
                        assert(h =~= header_spec(
                            old(self).message.packet_type,
                            old(self).message.source_address,
                            true,
                        ));
                    } else {
                        assert(h =~= Seq::<u8>::empty());
                    }
                },
                PacketStatus::V2(v2) => {
                    assert(h =~= header_spec(
                        old(self).message.packet_type,
                        old(self).message.source_address,
                        !v2.naked,
                    ));
                },
                _ => {
                    assert(h =~= Seq::<u8>::empty());
                },
            }
        }
        let ghost sent0 = self.sent;
        let ghost mlen = self.message.data@.len() as int;
        let ghost ns1 = self.next_status;
        let ghost fn1 = self.force_next;
        let ghost cf1 = self.crc_fed@;

        while payload_len(&data) < capacity && self.sent < self.message.data.len()
            invariant
                h.len() <= capacity <= 11,
                payload_bytes(data) == h + self.message.data@.subrange(
                    sent0 as int,
                    self.sent as int,
                ),
                sent0 <= self.sent <= self.message.data@.len(),
                payload_bytes(data).len() == h.len() + self.sent - sent0,
                payload_bytes(data).len() <= capacity,
                self.message == old(self).message,
                self.next_status == ns1,
                self.force_next == fn1,
                self.crc_fed@ == cf1,
            decreases capacity - payload_bytes(data).len(),
        {
            let b = self.message.data[self.sent];
            let ok = payload_push(&mut data, b);
            self.sent = self.sent + 1;
            proof {
                assert(payload_bytes(data) =~= h + self.message.data@.subrange(
                    sent0 as int,
                    self.sent as int,
                ));
            }
        }

        let ghost sent2 = self.sent;
        let ghost filled = payload_bytes(data);

        while payload_len(&data) < capacity
            invariant
                filled.len() <= payload_bytes(data).len() <= capacity <= 11,
                payload_bytes(data).take(filled.len() as int) == filled,
                forall|m: int|
                    filled.len() <= m < payload_bytes(data).len() ==> payload_bytes(data)[m] == 0u8,
            decreases capacity - payload_bytes(data).len(),
        {
            let ok = payload_push(&mut data, 0);
            proof {
                assert(payload_bytes(data).take(filled.len() as int) =~= filled);
            }
        }

        proof {
            assert(sent2 - sent0 == consumed(mlen, sent0 as int, capacity as int - h.len())) by {
                if mlen - sent0 <= capacity as int - h.len() {
                    assert(sent2 == mlen || payload_bytes(data).len() == capacity);
                }
            }
            let room = capacity as int - h.len();
            let target = h + take_fill(self.message.data@, sent0 as int, room);
            assert(payload_bytes(data).len() == capacity);
            assert(filled.len() == capacity || sent2 == mlen);
            assert forall|m: int| 0 <= m < capacity implies payload_bytes(data)[m] == target[m] by {
                if m < filled.len() {
                    assert(payload_bytes(data).take(filled.len() as int)[m] == filled[m]);
                    if m >= h.len() {
                        assert(filled[m] == self.message.data@.subrange(
                            sent0 as int,
                            sent2 as int,
                        )[m - h.len()]);
                    }
                } else {
                    assert(payload_bytes(data)[m] == 0u8);
                    assert(sent2 == mlen);
                    assert(sent0 + (m - h.len()) >= mlen);
                }
            }
            assert(payload_bytes(data) =~= target);
        }

        let mut status = status0;
        if let PacketStatus::Legacy(l) = status {
            let more = self.data_to_send();
            status = PacketStatus::Legacy(PacketStatusLegacy { last: !more, ..l });
        }
        if let PacketStatus::Data(_) = status {
            if self.sent < self.message.data.len() {
                let b = self.message.data[self.sent];
                status = PacketStatus::Data(b);
                self.sent = self.sent + 1;
            } else {
                status = PacketStatus::Data(0);
            }
        }

        let mut p = PacketData { data, status };
        let computed = p.compute_status();
        p.status = computed;

        match p.status {
            PacketStatus::V2(v2) => {
                if !v2.naked {
                    let n = payload_len(&p.data);
                    let ghost sentv = self.sent;
                    let ghost nsv = self.next_status;
                    let ghost fnv = self.force_next;
                    let mut i: usize = 0;
                    while i < n
                        invariant
                            i <= n,
                            n == payload_bytes(p.data).len(),
                            self.crc_fed@ == payload_bytes(p.data).take(i as int),
                            self.message == old(self).message,
                            self.sent == sentv,
                            self.next_status == nsv,
                            self.force_next == fnv,
                        decreases n - i,
                    {
                        let b = payload_get(&p.data, i);
                        self.crc_fed.push(b);
                        proof {
                            assert(self.crc_fed@ =~= payload_bytes(p.data).take(i + 1));
                        }
                        i = i + 1;
                    }
                    proof {
                        assert(payload_bytes(p.data).take(n as int) =~= payload_bytes(p.data));
                    }
                    let sb = p.status.encode();
                    let ghost fedbase = self.crc_fed@;
                    self.crc_fed.push(sb);
                    proof {
                        assert(self.crc_fed@ =~= fedbase + seq![sb]);
                    }
                    if v2.short {
                        let crc = crc8_checksum(self.crc_fed.as_slice());
                        let ghost before = payload_bytes(p.data);
                        let ok = payload_push(&mut p.data, crc);
                        proof {
                            assert(payload_bytes(p.data) =~= before + seq![crc]);
                        }
                    }
                }
            },
            PacketStatus::CRC8P(_) => {
                let n = payload_len(&p.data);
                let ghost fed0 = self.crc_fed@;
                let ghost sentv = self.sent;
                let ghost nsv = self.next_status;
                let ghost fnv = self.force_next;
                let mut i: usize = 0;
                while i < n
                    invariant
                        i <= n,
                        n == payload_bytes(p.data).len(),
                        self.crc_fed@ == fed0 + payload_bytes(p.data).take(i as int),
                        self.message == old(self).message,
                        self.sent == sentv,
                        self.next_status == nsv,
                        self.force_next == fnv,
                    decreases n - i,
                {
                    let b = payload_get(&p.data, i);
                    self.crc_fed.push(b);
                    proof {
                        assert(self.crc_fed@ =~= fed0 + payload_bytes(p.data).take(i + 1));
                    }
                    i = i + 1;
                }
                proof {
                    assert(payload_bytes(p.data).take(n as int) =~= payload_bytes(p.data));
                }
                let crc = crc8_checksum(self.crc_fed.as_slice());
                p.status = PacketStatus::CRC8P(crc);
                self.force_next = false;
            },
            _ => {},
        }

        p
    }
}

} // verus!
