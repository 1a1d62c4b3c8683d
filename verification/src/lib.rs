//! Link-layer packet codec for a narrow-band telemetry radio.
//!
//! A logical message is segmented into fixed 12-byte wire frames, expanded
//! with an extended (24,12) Golay forward-error-correcting code, bit-wise
//! interleaved across the eight codewords of a frame, and DC-balanced with a
//! 6b/8b line code into a 32-byte on-air burst. Reception reverses every
//! stage and reassembles the message while tracking corrected bit errors.

use vstd::prelude::*;

pub mod behavior;
pub mod crc8;
pub mod dc;
pub mod golay;
pub mod interleave;
pub mod laso;
pub mod message;
pub mod packet;
pub mod raw;
pub mod rx;
pub mod tx;
pub mod util;

verus! {

} // verus!
