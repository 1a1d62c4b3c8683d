//! Receive assembler: rebuilds a logical message from decoded packets.
//!
//! Packets arrive as `GolayDecoderResult`s whose status byte is still raw.
//! The assembler classifies each status from the previous one, validates the
//! legacy checksum or the running V2 CRC, consumes the first-packet headers,
//! and appends the payload while saturating an error counter.

use vstd::prelude::*;
use crate::crc8::{crc8_checksum, crc8_of};
use crate::message::{append_capped, Message, MessageVersion};
use crate::packet::{
    compute_status_spec, payload_as_slice, payload_bytes, payload_get, status_decode_spec,
    status_encode_spec, status_finished_spec, GolayDecoderResult, PacketData, PacketStatus,
};
use crate::util::{decode_ext_spec, decode_extended_number};

verus! {

/// Why the assembler rejected a packet.
#[derive(Debug, PartialEq, Eq, Structural, Clone, Copy)]
pub enum RxDecodeError {
    /// A first-packet flag arrived after payload was already accumulated.
    OutOfOrder,
    /// A new packet arrived after a terminal packet.
    Unexpected,
    /// The legacy per-packet checksum does not match.
    Invalid,
    /// The running V2 CRC does not match.
    CrcFailed,
    /// The message capacity would be exceeded.
    Full,
    /// The decoder state never saw a first packet.
    UnknownPacket,
    /// The packet's status byte was never classified.
    RawNeedsDecoding,
    /// An internal-only packet reached the receive path.
    InternalOnly,
}

/// Whether a packet with this status ends its message, so that nothing may
/// follow it.
pub open spec fn terminal_spec(s: PacketStatus) -> bool {
    match s {
        PacketStatus::Legacy(l) => l.last,
        PacketStatus::V2(v) => v.short,
        _ => false,
    }
}

/// How an incoming status is classified: a raw status byte is decoded from
/// the previous packet's status, anything else is taken as it is.
pub open spec fn classify_spec(last: PacketStatus, st: PacketStatus) -> PacketStatus {
    match st {
        PacketStatus::Raw(b) => status_decode_spec(last, b),
        _ => st,
    }
}

/// The framing version a V2 head packet announces.
pub open spec fn v2_version_spec(short: bool, naked: bool) -> MessageVersion {
    if naked {
        if short {
            MessageVersion::NakedShort
        } else {
            MessageVersion::Naked
        }
    } else {
        if short {
            MessageVersion::V2Short
        } else {
            MessageVersion::V2
        }
    }
}

/// A count clamped into one byte.
pub open spec fn clamp8(x: int) -> u8 {
    if x > 255 {
        255
    } else {
        x as u8
    }
}

/// An 8-bit saturating sum.
pub open spec fn sat_add8(a: u8, b: u8) -> u8 {
    if a + b > 255 {
        255
    } else {
        (a + b) as u8
    }
}

/// A message being reassembled from incoming packets.
pub struct RxMessage<const N: usize> {
    /// The accumulated message.
    pub msg: Message<N>,
    /// Whether the group being received is in naked mode.
    pub naked: bool,
    /// Signal strength reported by the radio for this reception.
    pub rssi: u8,
    /// Low-noise-amplifier setting reported by the radio.
    pub lna: u8,
    /// Corrected bit errors and parity violations, saturating at 255.
    pub errors: u8,
    /// The status of the last accepted packet; classifies the next one.
    pub last_status: PacketStatus,
    /// Every byte fed to the running CRC digest so far.
    pub crc_fed: Vec<u8>,
}

impl<const N: usize> Default for RxMessage<N> {
    /// A fresh assembler: empty message, unclassified status, fresh digest.
    fn default() -> (r: RxMessage<N>)
        ensures
            r.msg.data@ == Seq::<u8>::empty(),
            r.msg.version == MessageVersion::V2,
            r.msg.source_address == 0,
            r.msg.packet_type is None,
            r.naked == false,
            r.rssi == 0,
            r.lna == 0,
            r.errors == 0,
            r.last_status == PacketStatus::Unknown,
            r.crc_fed@ == Seq::<u8>::empty(),
            r.wf(),
    {
        RxMessage {
            msg: Message::default(),
            naked: false,
            rssi: 0,
            lna: 0,
            errors: 0,
            last_status: PacketStatus::Unknown,
            crc_fed: Vec::new(),
        }
    }
}

impl<const N: usize> From<Message<N>> for RxMessage<N> {
    /// Wrap an internally produced message in receive bookkeeping; the
    /// internal status marks it as never having been on the air.
    fn from(msg: Message<N>) -> (r: RxMessage<N>)
        ensures
            r.msg == msg,
            r.last_status == PacketStatus::Internal,
            r.naked == false,
            r.rssi == 0,
            r.lna == 0,
            r.errors == 0,
            r.crc_fed@ == Seq::<u8>::empty(),
    {
        RxMessage {
            msg,
            naked: false,
            rssi: 0,
            lna: 0,
            errors: 0,
            last_status: PacketStatus::Internal,
            crc_fed: Vec::new(),
        }
    }
}

impl<const N: usize> vstd::std_specs::convert::FromSpecImpl<Message<N>> for RxMessage<N> {
    open spec fn obeys_from_spec() -> bool {
        false
    }

    open spec fn from_spec(msg: Message<N>) -> RxMessage<N> {
        arbitrary()
    }
}

impl<const N: usize> RxMessage<N> {
    /// The accumulated message never exceeds its capacity.
    pub open spec fn wf(&self) -> bool {
        self.msg.wf()
    }

    /// Whether the last accepted packet ended the message.
    pub fn finished(&self) -> (r: bool)
        ensures
            r == status_finished_spec(self.last_status),
    {
        self.last_status.finished()
    }

    /// How the current state would classify the given raw status byte.
    pub fn decode_status(&self, b: u8) -> (r: PacketStatus)
        ensures
            r == status_decode_spec(self.last_status, b),
    {
        self.last_status.decode(b)
    }

    /// Consume one decoded packet: classify its status, validate it, read
    /// first-packet headers, check the running CRC, and append its payload.
    #[verifier::rlimit(100)]
    #[verifier::spinoff_prover]
    #[verifier::loop_isolation(false)]
    pub fn append(&mut self, dec: &GolayDecoderResult) -> (r: Result<(), RxDecodeError>)
        requires
            old(self).wf(),
            dec.data.payload().len() == 11,
        ensures
            final(self).wf(),
            final(self).rssi == old(self).rssi,
            final(self).lna == old(self).lna,
            (r == Err::<(), RxDecodeError>(RxDecodeError::Unexpected)) == terminal_spec(
                old(self).last_status,
            ),
            ({
                let pl = dec.data.payload();
                let cur = classify_spec(old(self).last_status, dec.data.status);
                let valid = compute_status_spec(pl, cur) == cur;
                terminal_spec(old(self).last_status) ==> *final(self) == *old(self)
            }),
            ({
                let pl = dec.data.payload();
                let cur = classify_spec(old(self).last_status, dec.data.status);
                let valid = compute_status_spec(pl, cur) == cur;
                !terminal_spec(old(self).last_status) && !valid ==> r == Err::<
                    (),
                    RxDecodeError,
                >(RxDecodeError::Invalid) && *final(self) == *old(self)
            }),
            ({
                let pl = dec.data.payload();
                let cur = classify_spec(old(self).last_status, dec.data.status);
                let valid = compute_status_spec(pl, cur) == cur;
                !terminal_spec(old(self).last_status) && valid ==> match cur {
                    PacketStatus::Unknown => r == Err::<(), RxDecodeError>(
                        RxDecodeError::UnknownPacket,
                    ) && *final(self) == *old(self),
                    PacketStatus::Internal => r == Err::<(), RxDecodeError>(
                        RxDecodeError::InternalOnly,
                    ) && *final(self) == *old(self),
                    PacketStatus::Raw(_) => r == Err::<(), RxDecodeError>(
                        RxDecodeError::RawNeedsDecoding,
                    ) && *final(self) == *old(self),
                    PacketStatus::Legacy(l) => {
                        if l.first && old(self).msg.data@.len() > 0 {
                            r == Err::<(), RxDecodeError>(RxDecodeError::OutOfOrder) && *final(self)
                                == *old(self)
                        } else {
                            let d1 = decode_ext_spec(pl, 0, 0);
                            let d2 = decode_ext_spec(pl, d1.1, 0);
                            let skip: int = if l.first {
                                d2.1
                            } else {
                                0
                            };
                            let appended = pl.subrange(skip, 11);
                            &&& final(self).msg.version == MessageVersion::LegacyLaso
                            &&& final(self).msg.packet_type == if l.first {
                                Some(d1.0)
                            } else {
                                old(self).msg.packet_type
                            }
                            &&& final(self).msg.source_address == if l.first {
                                d2.0
                            } else {
                                old(self).msg.source_address
                            }
                            &&& final(self).msg.data@ == append_capped(
                                old(self).msg.data@,
                                appended,
                                N as int,
                            )
                            &&& final(self).msg.will_listen == old(self).msg.will_listen
                            &&& final(self).naked == old(self).naked
                            &&& final(self).crc_fed@ == old(self).crc_fed@
                            &&& final(self).last_status == cur
                            &&& final(self).errors == sat_add8(
                                sat_add8(old(self).errors, clamp8(dec.errors as int)),
                                clamp8(dec.parity_errors as int),
                            )
                            &&& (r == Ok::<(), RxDecodeError>(())) == (old(self).msg.data@.len()
                                + appended.len() <= N)
                            &&& r is Err ==> r == Err::<(), RxDecodeError>(RxDecodeError::Full)
                        }
                    },
                    PacketStatus::V2(v) => {
                        let d1 = decode_ext_spec(pl, 0, 0);
                        let d2 = decode_ext_spec(pl, d1.1, 0);
                        let skip: int = if v.naked {
                            d1.1
                        } else {
                            d2.1
                        };
                        let size: int = if v.short && !v.naked {
                            10
                        } else {
                            11
                        };
                        let fed = if v.naked {
                            old(self).crc_fed@
                        } else {
                            old(self).crc_fed@ + pl.take(size) + seq![status_encode_spec(cur)]
                        };
                        let crc_ok = !(v.short && !v.naked) || pl[10] == crc8_of(fed);
                        let appended = pl.subrange(skip, size);
                        &&& final(self).msg.version == v2_version_spec(v.short, v.naked)
                        &&& final(self).msg.packet_type == if v.naked {
                            old(self).msg.packet_type
                        } else {
                            Some(d1.0)
                        }
                        &&& final(self).msg.source_address == if v.naked {
                            d1.0
                        } else {
                            d2.0
                        }
                        &&& final(self).naked == v.naked
                        &&& final(self).crc_fed@ == fed
                        &&& final(self).msg.will_listen == old(self).msg.will_listen
                        &&& !crc_ok ==> {
                            &&& r == Err::<(), RxDecodeError>(RxDecodeError::CrcFailed)
                            &&& final(self).msg.data@ == old(self).msg.data@
                            &&& final(self).last_status == old(self).last_status
                            &&& final(self).errors == old(self).errors
                        }
                        &&& crc_ok ==> {
                            &&& final(self).msg.data@ == append_capped(
                                old(self).msg.data@,
                                appended,
                                N as int,
                            )
                            &&& final(self).last_status == cur
                            &&& final(self).errors == sat_add8(
                                sat_add8(old(self).errors, clamp8(dec.errors as int)),
                                clamp8(dec.parity_errors as int),
                            )
                            &&& (r == Ok::<(), RxDecodeError>(())) == (old(self).msg.data@.len()
                                + appended.len() <= N)
                            &&& r is Err ==> r == Err::<(), RxDecodeError>(RxDecodeError::Full)
                        }
                    },
                    PacketStatus::CRC8P(c) => {
                        let fed = old(self).crc_fed@ + pl;
                        let crc_ok = c == crc8_of(fed);
                        let appended = pl;
                        &&& final(self).msg.version == old(self).msg.version
                        &&& final(self).msg.packet_type == old(self).msg.packet_type
                        &&& final(self).msg.source_address == old(self).msg.source_address
                        &&& final(self).msg.will_listen == old(self).msg.will_listen
                        &&& final(self).naked == old(self).naked
                        &&& final(self).crc_fed@ == fed
                        &&& !crc_ok ==> {
                            &&& r == Err::<(), RxDecodeError>(RxDecodeError::CrcFailed)
                            &&& final(self).msg.data@ == old(self).msg.data@
                            &&& final(self).last_status == old(self).last_status
                            &&& final(self).errors == old(self).errors
                        }
                        &&& crc_ok ==> {
                            &&& final(self).msg.data@ == append_capped(
                                old(self).msg.data@,
                                appended,
                                N as int,
                            )
                            &&& final(self).last_status == cur
                            &&& final(self).errors == sat_add8(
                                sat_add8(old(self).errors, clamp8(dec.errors as int)),
                                clamp8(dec.parity_errors as int),
                            )
                            &&& (r == Ok::<(), RxDecodeError>(())) == (old(self).msg.data@.len()
                                + appended.len() <= N)
                            &&& r is Err ==> r == Err::<(), RxDecodeError>(RxDecodeError::Full)
                        }
                    },
                    PacketStatus::Data(b) => {
                        let appended = pl + seq![b];
                        &&& final(self).msg.version == old(self).msg.version
                        &&& final(self).msg.packet_type == old(self).msg.packet_type
                        &&& final(self).msg.source_address == old(self).msg.source_address
                        &&& final(self).msg.will_listen == old(self).msg.will_listen
                        &&& final(self).naked == old(self).naked
                        &&& final(self).crc_fed@ == old(self).crc_fed@
                        &&& final(self).msg.data@ == append_capped(
                            old(self).msg.data@,
                            appended,
                            N as int,
                        )
                        &&& final(self).last_status == cur
                        &&& final(self).errors == sat_add8(
                            sat_add8(old(self).errors, clamp8(dec.errors as int)),
                            clamp8(dec.parity_errors as int),
                        )
                        &&& (r == Ok::<(), RxDecodeError>(())) == (old(self).msg.data@.len()
                            + appended.len() <= N)
                        &&& r is Err ==> r == Err::<(), RxDecodeError>(RxDecodeError::Full)
                    },
                }
            }),
    {
        if let PacketStatus::Legacy(legacy) = self.last_status {
            if legacy.last {
                return Err(RxDecodeError::Unexpected);
            }
        }
        if let PacketStatus::V2(v2) = self.last_status {
            if v2.short {
                return Err(RxDecodeError::Unexpected);
            }
        }

        let cur_status = if let PacketStatus::Raw(raw) = dec.data.status {
            self.last_status.decode(raw)
        } else {
            dec.data.status
        };

        let candidate = PacketData { data: crate::packet::payload_clone(&dec.data.data), status: cur_status };
        if !candidate.check_valid() {
            return Err(RxDecodeError::Invalid);
        }

        let mut skip: usize = 0;
        let mut size: usize = 11;

        match cur_status {
            PacketStatus::Legacy(legacy) => {
                if self.msg.data.len() > 0 && legacy.first {
                    return Err(RxDecodeError::OutOfOrder);
                }
                if legacy.first {
                    let sl = payload_as_slice(&dec.data.data);
                    let (packet_type, s1) = decode_extended_number(sl, 0);
                    self.msg.packet_type = Some(packet_type);
                    let (addr, s2) = decode_extended_number(sl, s1);
                    self.msg.source_address = addr;
                    skip = s2;
                }
                self.msg.version = MessageVersion::LegacyLaso;
            },
            PacketStatus::V2(v2) => {
                self.naked = v2.naked;
                let sl = payload_as_slice(&dec.data.data);
                if !v2.naked {
                    let (packet_type, s1) = decode_extended_number(sl, 0);
                    self.msg.packet_type = Some(packet_type);
                    let (addr, s2) = decode_extended_number(sl, s1);
                    self.msg.source_address = addr;
                    skip = s2;
                } else {
                    let (addr, s1) = decode_extended_number(sl, 0);
                    self.msg.source_address = addr;
                    skip = s1;
                }
                if v2.naked {
                    self.msg.version = if v2.short {
                        MessageVersion::NakedShort
                    } else {
                        MessageVersion::Naked
                    };
                } else if v2.short {
                    self.msg.version = MessageVersion::V2Short;
                    size = 10;
                } else {
                    self.msg.version = MessageVersion::V2;
                }
                if !v2.naked {
                    let ghost fed0 = self.crc_fed@;
                    let ghost pm = self.msg;
                    let ghost pn = self.naked;
                    let mut i: usize = 0;
                    proof {
                        assert(fed0 + dec.data.payload().take(0) =~= fed0);
                    }
                    while i < size
                        invariant
                            i <= size <= 11,
                            dec.data.payload().len() == 11,
                            self.crc_fed@ == fed0 + dec.data.payload().take(i as int),
                            self.msg == pm,
                            self.naked == pn,
                            self.last_status == old(self).last_status,
                            self.errors == old(self).errors,
                            self.rssi == old(self).rssi,
                            self.lna == old(self).lna,
                        decreases size - i,
                    {
                        let b = payload_get(&dec.data.data, i);
                        self.crc_fed.push(b);
                        proof {
                            assert(dec.data.payload().take(i + 1) =~= dec.data.payload().take(
                                i as int,
                            ).push(dec.data.payload()[i as int]));
                            assert(self.crc_fed@ =~= fed0 + dec.data.payload().take(i + 1));
                        }
                        i = i + 1;
                    }
                    let sb = cur_status.encode();
                    let ghost fed1 = self.crc_fed@;
                    self.crc_fed.push(sb);
                    proof {
                        assert(self.crc_fed@ =~= fed1 + seq![sb]);
                    }
                    if v2.short {
                        let crc = payload_get(&dec.data.data, 10);
                        let snapshot = crc8_checksum(self.crc_fed.as_slice());
                        if crc != snapshot {
                            return Err(RxDecodeError::CrcFailed);
                        }
                    }
                }
            },
            PacketStatus::CRC8P(crc) => {
                let ghost fed0 = self.crc_fed@;
                let ghost pm = self.msg;
                let ghost pn = self.naked;
                let mut i: usize = 0;
                proof {
                    assert(fed0 + dec.data.payload().take(0) =~= fed0);
                }
                while i < 11
                    invariant
                        i <= 11,
                        dec.data.payload().len() == 11,
                        self.crc_fed@ == fed0 + dec.data.payload().take(i as int),
                        self.msg == pm,
                        self.naked == pn,
                        self.last_status == old(self).last_status,
                        self.errors == old(self).errors,
                        self.rssi == old(self).rssi,
                        self.lna == old(self).lna,
                    decreases 11 - i,
                {
                    let b = payload_get(&dec.data.data, i);
                    self.crc_fed.push(b);
                    proof {
                        assert(dec.data.payload().take(i + 1) =~= dec.data.payload().take(
                            i as int,
                        ).push(dec.data.payload()[i as int]));
                        assert(self.crc_fed@ =~= fed0 + dec.data.payload().take(i + 1));
                    }
                    i = i + 1;
                }
                proof {
                    assert(dec.data.payload().take(11) =~= dec.data.payload());
                }
                let snapshot = crc8_checksum(self.crc_fed.as_slice());
                if crc != snapshot {
                    return Err(RxDecodeError::CrcFailed);
                }
            },
            PacketStatus::Unknown => {
                return Err(RxDecodeError::UnknownPacket);
            },
            PacketStatus::Internal => {
                return Err(RxDecodeError::InternalOnly);
            },
            PacketStatus::Raw(_) => {
                return Err(RxDecodeError::RawNeedsDecoding);
            },
            PacketStatus::Data(_) => {},
        }

        self.last_status = cur_status;
        let e1: u8 = if dec.errors > 255 {
            255
        } else {
            dec.errors as u8
        };
        let e2: u8 = if dec.parity_errors > 255 {
            255
        } else {
            dec.parity_errors as u8
        };
        self.errors = self.errors.saturating_add(e1);
        self.errors = self.errors.saturating_add(e2);

        let ghost d0 = self.msg.data@;
        let ghost sv = *self;
        let mut i: usize = skip;
        proof {
            assert(append_capped(d0, dec.data.payload().subrange(skip as int, skip as int), N as int)
                =~= d0);
        }
        while i < size
            invariant
                skip <= i <= size <= 11,
                dec.data.payload().len() == 11,
                self.msg.data@ == append_capped(
                    d0,
                    dec.data.payload().subrange(skip as int, i as int),
                    N as int,
                ),
                self.msg.data@.len() <= N,
                self.msg.data@.len() == d0.len() + i - skip,
                d0.len() <= N,
                self.msg.version == sv.msg.version,
                self.msg.packet_type == sv.msg.packet_type,
                self.msg.source_address == sv.msg.source_address,
                self.msg.will_listen == sv.msg.will_listen,
                self.naked == sv.naked,
                self.crc_fed@ == sv.crc_fed@,
                self.last_status == sv.last_status,
                self.errors == sv.errors,
                self.rssi == sv.rssi,
                self.lna == sv.lna,
            decreases size - i,
        {
            let b = payload_get(&dec.data.data, i);
            if self.msg.data.len() < N {
                self.msg.data.push(b);
                proof {
                    assert(dec.data.payload().subrange(skip as int, i + 1)
                        =~= dec.data.payload().subrange(skip as int, i as int).push(
                        dec.data.payload()[i as int],
                    ));
                    assert(self.msg.data@ =~= append_capped(
                        d0,
                        dec.data.payload().subrange(skip as int, i + 1),
                        N as int,
                    ));
                }
            } else {
                proof {
                    let pl = dec.data.payload();
                    let part = pl.subrange(skip as int, i as int);
                    let all = pl.subrange(skip as int, size as int);
                    assert(part =~= all.take(part.len() as int));
                    assert(self.msg.data@.len() == append_capped(d0, part, N as int).len());
                    assert(d0.len() + part.len() >= N);
                    lemma_append_capped_overflow(d0, part, all, N as int);
                    if cur_status is Data {
                        assert(part =~= (all + seq![cur_status->Data_0]).take(part.len() as int));
                        lemma_append_capped_overflow(
                            d0,
                            part,
                            all + seq![cur_status->Data_0],
                            N as int,
                        );
                    }
                }
                return Err(RxDecodeError::Full);
            }
            i = i + 1;
        }

        proof {
            assert(dec.data.payload().subrange(0, 11) =~= dec.data.payload());
        }
        if let PacketStatus::Data(b) = cur_status {
            if self.msg.data.len() < N {
                self.msg.data.push(b);
                proof {
                    assert(self.msg.data@ =~= append_capped(
                        d0,
                        dec.data.payload().subrange(skip as int, size as int) + seq![b],
                        N as int,
                    ));
                }
            } else {
                proof {
                    let pl = dec.data.payload();
                    let part = pl.subrange(skip as int, size as int);
                    let all = part + seq![b];
                    assert(part =~= all.take(part.len() as int));
                    assert(self.msg.data@.len() == append_capped(d0, part, N as int).len());
                    assert(d0.len() + part.len() >= N);
                    lemma_append_capped_overflow(d0, part, all, N as int);
                }
                return Err(RxDecodeError::Full);
            }
        }

        Ok(())
    }
}

/// The receive digest matches at every CRC continuation packet of a V2
/// transmission. This is the induction step over one packet exchange: when
/// the sender's and the receiver's digests hold the same bytes, then for
/// the next packet — a V2 group head or a CRC continuation packet, with
/// digest and status exactly as `MessageSender::packet` ensures — the
/// snapshot comparison of `RxMessage::append` succeeds and both digests
/// hold the same bytes again afterwards. The base case is the fresh pair of
/// empty digests that `MessageSender::new` and `RxMessage::default` ensure.
pub proof fn lemma_crc_digests_stay_aligned(
    tx_fed0: Seq<u8>,
    rx_fed0: Seq<u8>,
    pl: Seq<u8>,
    status: PacketStatus,
    tx_fed1: Seq<u8>,
)
    requires
        rx_fed0 == tx_fed0,
        pl.len() == 11,
        match status {
            PacketStatus::V2(v) => !v.naked && tx_fed0 == Seq::<u8>::empty() && (if v.short {
                tx_fed1 == pl.take(10) + seq![status_encode_spec(status)] && pl[10] == crc8_of(
                    tx_fed1,
                )
            } else {
                tx_fed1 == pl + seq![status_encode_spec(status)]
            }),
            PacketStatus::CRC8P(c) => tx_fed1 == tx_fed0 + pl && c == crc8_of(tx_fed1),
            _ => false,
        },
    ensures
        match status {
            PacketStatus::V2(v) => {
                let size: int = if v.short {
                    10
                } else {
                    11
                };
                let rx_fed1 = rx_fed0 + pl.take(size) + seq![status_encode_spec(status)];
                rx_fed1 == tx_fed1 && (v.short ==> pl[10] == crc8_of(rx_fed1))
            },
            PacketStatus::CRC8P(c) => {
                let rx_fed1 = rx_fed0 + pl;
                rx_fed1 == tx_fed1 && c == crc8_of(rx_fed1)
            },
            _ => true,
        },
{
    match status {
        PacketStatus::V2(v) => {
            if v.short {
                assert(rx_fed0 + pl.take(10) + seq![status_encode_spec(status)] =~= tx_fed1);
            } else {
                assert(pl.take(11) =~= pl);
                assert(rx_fed0 + pl.take(11) + seq![status_encode_spec(status)] =~= tx_fed1);
            }
        },
        PacketStatus::CRC8P(_) => {
            assert(rx_fed0 + pl =~= tx_fed1);
        },
        _ => {},
    }
}

/// When a capped buffer has filled up while appending a prefix of `all`,
/// appending the rest changes nothing: the capped append of `all` equals the
/// buffer as it stands.
proof fn lemma_append_capped_overflow(d0: Seq<u8>, part: Seq<u8>, all: Seq<u8>, cap: int)
    requires
        d0.len() <= cap,
        part.len() <= all.len(),
        d0.len() + part.len() >= cap,
        part == all.take(part.len() as int),
    ensures
        append_capped(d0, part, cap) == append_capped(d0, all, cap),
{
    let room = cap - d0.len();
    assert(append_capped(d0, part, cap) =~= append_capped(d0, all, cap)) by {
        assert(part.take(room) =~= all.take(room));
    }
}

} // verus!
