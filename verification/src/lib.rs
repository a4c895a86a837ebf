//! State replication between an authoritative side and its remote peers.
//!
//! Outbound resources are pushed to peers as full values or as deltas against
//! the last value sent; inbound resources take what a peer pushed. The bytes
//! travel over whatever transport implements [`SynchronizeOutbound`].

pub mod client;
pub mod fanout;
pub mod laws;
pub mod node;
pub mod resources;
pub mod server;
pub mod table;
pub mod wire;

use vstd::prelude::*;

verus! {

/// Destination scope of an outbound resource.
#[derive(Debug, Clone, Copy, PartialEq, Eq, Hash)]
pub enum Target<I> {
    /// One peer only.
    Specific(I),
    /// Every peer that is connected when the resource is synchronized.
    All,
}

/// The transport: hands raw bytes to be delivered to a destination.
/// Nothing is asked of an implementation; what the library hands to it is
/// recorded by the client or server that owns it.
pub trait SynchronizeOutbound<B> {
    fn synchronize(&mut self, bound: B, data: Vec<u8>);
}

/// Hands `data` for `bound` to the transport and records under `key` that
/// it did.
pub(crate) fn hand_over<N: SynchronizeOutbound<B>, B, K>(
    transport: &mut N,
    sent: &mut Ghost<Seq<(K, Seq<u8>)>>,
    bound: B,
    Ghost(key): Ghost<K>,
    data: Vec<u8>,
)
    ensures
        final(sent)@ == old(sent)@.push((key, data@)),
{
    proof {
        sent@ = sent@.push((key, data@));
    }
    transport.synchronize(bound, data);
}

} // verus!
