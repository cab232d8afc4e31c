//! Configuration and callbacks of the reliable-UDP endpoint.

use vstd::prelude::*;

verus! {

/// Configuration of a reliable endpoint.
#[derive(Clone, Debug)]
pub struct ReliableConfig {
    pub name: String,
    pub max_packet_size: usize,
    pub max_fragment_size: usize,
    pub max_fragments: usize,
    pub fragment_size: usize,
}

/// Receives what a reliable endpoint sends and delivers.
pub trait ReliableObserver {
    /// A packet the endpoint wants sent on the network.
    fn send(&mut self, id: u64, sequence: u16, buf: &[u8]);

    /// A packet the endpoint delivers; the result says whether it was taken.
    /// Unless an observer says otherwise, nothing is taken.
    fn recv(&mut self, id: u64, sequence: u16, buf: &[u8]) -> (taken: bool)
        default_ensures
            !taken,
    {
        false
    }
}

} // verus!
