//! Logical messages and byte-wise builders for their payloads.

use vstd::prelude::*;
use crate::tx::MessageSender;
use crate::util::varlength_spec;

verus! {

/// The framing mode a message travels in.
#[derive(Clone, Copy, PartialEq, Eq, Structural, Debug)]
pub enum MessageVersion {
    /// The original framing: a checksum per packet, continuation flags.
    LegacyLaso,
    /// V2 framing: a running CRC8, carried by follow-up packets.
    V2,
    /// V2 framing fitting one packet, the last payload byte holding the CRC.
    V2Short,
    /// Naked framing: headers carry only the node id, follow-up packets use
    /// the status byte for one more data byte, no CRC.
    Naked,
    /// Naked framing fitting one packet.
    NakedShort,
}

impl Default for MessageVersion {
    /// Messages default to the V2 framing.
    fn default() -> (r: MessageVersion)
        ensures
            r == MessageVersion::V2,
    {
        MessageVersion::V2
    }
}

/// A buffer with `bytes` appended, dropping whatever exceeds the capacity.
pub open spec fn append_capped(data: Seq<u8>, bytes: Seq<u8>, cap: int) -> Seq<u8> {
    let room = cap - data.len();
    data + bytes.take(
        if bytes.len() <= room {
            bytes.len() as int
        } else {
            room
        },
    )
}

/// A logical message: payload bytes bounded by the compile-time capacity
/// `N`, addressing fields, and the framing mode to transmit in.
#[derive(Clone, Debug, PartialEq, Eq)]
pub struct Message<const N: usize> {
    pub version: MessageVersion,
    pub data: Vec<u8>,
    pub source_address: u32,
    pub packet_type: Option<u32>,
    pub will_listen: bool,
}

impl<const N: usize> Message<N> {
    /// The payload never exceeds the capacity.
    pub open spec fn wf(&self) -> bool {
        self.data@.len() <= N
    }

    /// Hand the message to a sender that segments it into packets.
    pub fn sender(self) -> (r: MessageSender<N>)
        requires
            self.wf(),
        ensures
            r.wf(),
            r.message == self,
            r.next_status == crate::tx::initial_status(self.version, self.will_listen),
            r.force_next == false,
            r.sent == 0,
            r.crc_fed@ == Seq::<u8>::empty(),
    {
        MessageSender::new(self)
    }

    /// Append bytes, dropping whatever exceeds the capacity.
    fn add_bytes(&mut self, bytes: &[u8])
        requires
            old(self).wf(),
        ensures
            final(self).wf(),
            final(self).data@ == append_capped(old(self).data@, bytes@, N as int),
            final(self).version == old(self).version,
            final(self).source_address == old(self).source_address,
            final(self).packet_type == old(self).packet_type,
            final(self).will_listen == old(self).will_listen,
    {
        let ghost d0 = self.data@;
        let mut i: usize = 0;
        proof {
            assert(append_capped(d0, bytes@.take(0), N as int) =~= d0);
        }
        while i < bytes.len()
            invariant
                i <= bytes@.len(),
                self.data@ == append_capped(d0, bytes@.take(i as int), N as int),
                d0.len() <= N,
                self.data@.len() <= N,
                self.version == old(self).version,
                self.source_address == old(self).source_address,
                self.packet_type == old(self).packet_type,
                self.will_listen == old(self).will_listen,
            decreases bytes@.len() - i,
        {
            let b = bytes[i];
            if self.data.len() < N {
                self.data.push(b);
            }
            proof {
                assert(bytes@.take(i + 1) =~= bytes@.take(i as int).push(bytes@[i as int]));
                assert(self.data@ =~= append_capped(d0, bytes@.take(i + 1), N as int));
            }
            i = i + 1;
        }
        proof {
            assert(bytes@.take(bytes@.len() as int) =~= bytes@);
        }
    }
}

impl<const N: usize> Default for Message<N> {
    /// An empty V2 message with zeroed addressing.
    fn default() -> (r: Message<N>)
        ensures
            r.version == MessageVersion::V2,
            r.data@ == Seq::<u8>::empty(),
            r.source_address == 0,
            r.packet_type is None,
            r.will_listen == false,
            r.wf(),
    {
        Message {
            version: MessageVersion::V2,
            data: Vec::new(),
            source_address: 0,
            packet_type: None,
            will_listen: false,
        }
    }
}

/// Byte-wise writers for a bounded payload buffer: multi-byte values are
/// appended most significant byte first, and bytes beyond the capacity are
/// dropped.
pub trait BitAdder {
    /// The bytes written so far.
    spec fn buf(&self) -> Seq<u8>;

    /// The buffer's capacity.
    spec fn cap(&self) -> int;

    /// Append one byte.
    fn add(&mut self, v: u8)
        requires
            old(self).buf().len() <= old(self).cap(),
        ensures
            final(self).buf() == append_capped(old(self).buf(), seq![v], old(self).cap()),
            final(self).cap() == old(self).cap(),
            final(self).buf().len() <= final(self).cap(),
    ;

    /// Append a 16-bit value, most significant byte first.
    fn add_u16(&mut self, v: u16)
        requires
            old(self).buf().len() <= old(self).cap(),
        ensures
            final(self).buf() == append_capped(
                old(self).buf(),
                seq![(v >> 8) as u8, v as u8],
                old(self).cap(),
            ),
            final(self).cap() == old(self).cap(),
            final(self).buf().len() <= final(self).cap(),
    ;

    /// Append a 32-bit value, most significant byte first.
    fn add_u32(&mut self, v: u32)
        requires
            old(self).buf().len() <= old(self).cap(),
        ensures
            final(self).buf() == append_capped(
                old(self).buf(),
                seq![(v >> 24) as u8, (v >> 16) as u8, (v >> 8) as u8, v as u8],
                old(self).cap(),
            ),
            final(self).cap() == old(self).cap(),
            final(self).buf().len() <= final(self).cap(),
    ;

    /// Append a value's 7-bit continuation encoding.
    fn add_varlen(&mut self, v: u32)
        requires
            old(self).buf().len() <= old(self).cap(),
        ensures
            final(self).buf() == append_capped(
                old(self).buf(),
                varlength_spec(v),
                old(self).cap(),
            ),
            final(self).cap() == old(self).cap(),
            final(self).buf().len() <= final(self).cap(),
    ;
}

impl<const N: usize> BitAdder for Message<N> {
    open spec fn buf(&self) -> Seq<u8> {
        self.data@
    }

    open spec fn cap(&self) -> int {
        N as int
    }

    fn add(&mut self, v: u8) {
        let tmp: [u8; 1] = [v];
        proof {
            assert(tmp@ =~= seq![v]);
        }
        self.add_bytes(&tmp);
    }

    fn add_u16(&mut self, v: u16) {
        let tmp: [u8; 2] = [(v >> 8) as u8, v as u8];
        proof {
            assert(tmp@ =~= seq![(v >> 8) as u8, v as u8]);
        }
        self.add_bytes(&tmp);
    }

    fn add_u32(&mut self, v: u32) {
        let tmp: [u8; 4] = [(v >> 24) as u8, (v >> 16) as u8, (v >> 8) as u8, v as u8];
        proof {
            assert(tmp@ =~= seq![(v >> 24) as u8, (v >> 16) as u8, (v >> 8) as u8, v as u8]);
        }
        self.add_bytes(&tmp);
    }

    fn add_varlen(&mut self, v: u32) {
        let bytes = crate::util::encode_varlength(v);
        self.add_bytes(bytes.as_slice());
    }
}

} // verus!
