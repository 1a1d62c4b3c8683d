//! Registry of known payload types carried in the packet-type header field.

use vstd::prelude::*;
use crate::util::varlength_spec;

verus! {

/// The payload types this station knows about.
#[derive(Copy, Clone, Eq, PartialEq, Structural, Debug)]
pub enum LasoPacketType {
    Unknown,
    Temperature,
    GsmStatus,
    WaterLevel,
}

/// The header code of each payload type.
pub open spec fn packet_type_code(t: LasoPacketType) -> u32 {
    match t {
        LasoPacketType::Unknown => 0x00,
        LasoPacketType::Temperature => 0x1,
        LasoPacketType::GsmStatus => 0x2,
        LasoPacketType::WaterLevel => 0x10A,
    }
}

impl LasoPacketType {
    /// The header code of this payload type.
    pub fn code(self) -> (r: u32)
        ensures
            r == packet_type_code(self),
    {
        match self {
            LasoPacketType::Unknown => 0x00,
            LasoPacketType::Temperature => 0x1,
            LasoPacketType::GsmStatus => 0x2,
            LasoPacketType::WaterLevel => 0x10A,
        }
    }

    /// The header bytes of this payload type, varlength encoded.
    pub fn encode(self) -> (r: Vec<u8>)
        ensures
            r@ == varlength_spec(packet_type_code(self)),
    {
        crate::util::encode_varlength(self.code())
    }
}

impl From<LasoPacketType> for u32 {
    /// A payload type converts to its header code.
    fn from(value: LasoPacketType) -> (r: u32) {
        value.code()
    }
}

impl vstd::std_specs::convert::FromSpecImpl<LasoPacketType> for u32 {
    open spec fn obeys_from_spec() -> bool {
        true
    }

    open spec fn from_spec(t: LasoPacketType) -> u32 {
        packet_type_code(t)
    }
}

} // verus!
