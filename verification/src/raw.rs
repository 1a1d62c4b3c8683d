//! Raw bytes handed over by the radio, with reception metadata.

use vstd::prelude::*;

verus! {

/// A burst of raw radio bytes together with the gain and signal strength
/// the receiver observed.
#[derive(Clone, Debug)]
pub struct RawReceiveData<const N: usize> {
    pub packet: Vec<u8>,
    pub lna: u8,
    pub rssi: u8,
}

impl<const N: usize> RawReceiveData<N> {
    /// The buffer never exceeds its compile-time capacity.
    pub open spec fn wf(&self) -> bool {
        self.packet@.len() <= N
    }

    /// An empty reception buffer.
    pub fn init() -> (r: RawReceiveData<N>)
        ensures
            r.packet@ == Seq::<u8>::empty(),
            r.lna == 0,
            r.rssi == 0,
            r.wf(),
    {
        RawReceiveData { packet: Vec::new(), lna: 0, rssi: 0 }
    }

    /// Drop the buffered bytes, keeping the metadata.
    pub fn clear(&mut self)
        ensures
            final(self).packet@ == Seq::<u8>::empty(),
            final(self).lna == old(self).lna,
            final(self).rssi == old(self).rssi,
            final(self).wf(),
    {
        self.packet.clear();
    }
}

} // verus!
