//! Decode orchestrator: drives a received 32-byte burst through the strip,
//! de-interleave and Golay stages.
//!
//! The staged decoder exposes one step per pipeline stage so a cooperative
//! scheduler can interleave other work between the heavy pure transforms;
//! `decode_burst` drives it straight through for callers that do not care.

use vstd::prelude::*;
use crate::packet::{
    GolayDecoderResult, PacketWithGolay, PacketWithInterleave, PacketWithoutDC,
};

verus! {

/// What a full decode of the given 32 on-air bytes yields at the Golay
/// buffer boundary: the burst stripped of its DC balancing and
/// de-interleaved back into eight codewords.
pub open spec fn decoded_words_spec(burst: Seq<u8>) -> Seq<u8> {
    crate::interleave::deinterleave_spec(crate::dc::dc_decode_spec(burst))
}

/// A burst decode in progress, between the pipeline stages.
pub enum BurstDecoder {
    /// The burst was stripped of its DC balancing; de-interleaving is next.
    Stripped(PacketWithInterleave),
    /// The codewords were rebuilt; the Golay decode is next.
    Deinterleaved(PacketWithGolay),
}

impl BurstDecoder {
    /// The Golay buffer a finished decode of this state will work on.
    pub open spec fn words_spec(&self) -> Seq<u8> {
        match self {
            BurstDecoder::Stripped(p) => crate::interleave::deinterleave_spec(p.data@),
            BurstDecoder::Deinterleaved(g) => g.data@,
        }
    }

    /// Start decoding a 32-byte burst: the first stage strips the 6b/8b
    /// line code.
    pub fn start(burst: &[u8; 32]) -> (r: BurstDecoder)
        ensures
            r.words_spec() == decoded_words_spec(burst@),
    {
        let p = PacketWithoutDC::new(burst);
        proof {
            assert(p.data@ =~= burst@);
        }
        BurstDecoder::Stripped(PacketWithInterleave::from_radio(&p))
    }

    /// Run one pipeline stage; yields the result after the final stage.
    pub fn step(self) -> (r: Result<BurstDecoder, GolayDecoderResult>)
        ensures
            match r {
                Ok(next) => next.words_spec() == self.words_spec(),
                Err(out) => golay_result_ok(self.words_spec(), out),
            },
            self is Stripped ==> r is Ok && r->Ok_0 is Deinterleaved,
            self is Deinterleaved ==> r is Err,
    {
        match self {
            BurstDecoder::Stripped(p) => Ok(
                BurstDecoder::Deinterleaved(PacketWithGolay::from_interleaved(&p)),
            ),
            BurstDecoder::Deinterleaved(g) => Err(GolayDecoderResult::from_golay(&g)),
        }
    }
}

/// What the Golay stage promises of its output for a buffer of words: the
/// counters stay in range, the status is a raw byte, and a buffer of clean
/// codewords decodes exactly.
pub open spec fn golay_result_ok(words: Seq<u8>, out: GolayDecoderResult) -> bool {
    &&& out.data.wf()
    &&& out.data.payload().len() == 11
    &&& out.errors <= 24
    &&& out.parity_errors <= 8
    &&& out.data.status is Raw
    &&& (forall|k: int|
        0 <= k < 8 ==> crate::golay::syndrome_spec(
            #[trigger] crate::interleave::word_spec(words, k),
        ) == 0 && crate::golay::parity24_spec(crate::interleave::word_spec(words, k)) == 0) ==> (
    out.data.payload() == crate::golay::unpack_spec(words).take(11) && out.data.status
        == PacketStatus::Raw(crate::golay::unpack_spec(words)[11]) && out.errors == 0
        && out.parity_errors == 0)
    &&& forall|g2: Seq<u8>|
        #[trigger] crate::golay::golay_close(words, g2) ==> out.data.payload()
            == crate::golay::unpack_spec(g2).take(11) && out.data.status == PacketStatus::Raw(
            crate::golay::unpack_spec(g2)[11],
        ) && out.errors == crate::golay::flips_sum(words, g2, 8)
}

use crate::packet::PacketStatus;

/// Decode a 32-byte on-air burst in one go: strip the line code,
/// de-interleave, and Golay-decode into a frame with error counters.
pub fn decode_burst(burst: &[u8; 32]) -> (r: GolayDecoderResult)
    ensures
        golay_result_ok(decoded_words_spec(burst@), r),
{
    let st = BurstDecoder::start(burst);
    let st = match st.step() {
        Ok(next) => next,
        Err(out) => {
            return out;
        },
    };
    match st.step() {
        Ok(_) => unreached(),
        Err(out) => out,
    }
}

/// Transmit and receive are inverse: for any frame payload and status, the
/// on-air burst that `encode_for_transmit` builds decodes back to exactly
/// the frame's 12 wire bytes, through clean codewords, so the Golay stage
/// reports zero corrected errors and zero parity violations.
pub proof fn lemma_transmit_roundtrip(data: Seq<u8>, status: PacketStatus)
    requires
        data.len() <= 11,
    ensures
        ({
            let wire = crate::packet::wire_spec(data, status);
            let burst = crate::dc::dc_encode_spec(
                crate::interleave::interleave_spec(crate::golay::golay_group_spec(wire)),
            );
            let words = decoded_words_spec(burst);
            &&& words == crate::golay::golay_group_spec(wire)
            &&& crate::golay::unpack_spec(words) == wire
            &&& forall|k: int|
                0 <= k < 8 ==> crate::golay::syndrome_spec(
                    #[trigger] crate::interleave::word_spec(words, k),
                ) == 0 && crate::golay::parity24_spec(crate::interleave::word_spec(words, k)) == 0
        }),
{
    let wire = crate::packet::wire_spec(data, status);
    let g = crate::golay::golay_group_spec(wire);
    crate::dc::lemma_dc_roundtrip(crate::interleave::interleave_spec(g));
    crate::interleave::lemma_interleave_roundtrip(g);
    crate::golay::lemma_golay_group_roundtrip(wire);
}

} // verus!
