//! The running CRC8 of the V2 framing: polynomial 0xD5, zero init, no
//! reflection, no output XOR.

use vstd::prelude::*;

verus! {

/// The CRC8 digest (poly 0xD5, init 0, unreflected, no xorout) of a byte
/// sequence. A function of the bytes alone.
pub uninterp spec fn crc8_of(data: Seq<u8>) -> u8;

/// Relies on crc::Crc::<u8, NoTable>::checksum with the CRC-8/DVB-S2
/// algorithm (poly 0xD5, init 0x00, refin false, refout false, xorout 0x00):
/// the digest depends on the input bytes alone.
#[verifier::external_body]
pub fn crc8_checksum(data: &[u8]) -> (r: u8)
    ensures
        r == crc8_of(data@),
{
    crc::Crc::<u8, crc::NoTable>::new(&crc::CRC_8_DVB_S2).checksum(data)
}

} // verus!
