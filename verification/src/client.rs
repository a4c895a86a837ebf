//! The side that talks to one peer, its server.

use crate::hand_over;
use crate::node::Node;
use crate::resources::{
    delivers, offers, settled, Delivery, Diffable, HashMapResources, OutboundResource,
};
use crate::table::Identifier;
use crate::wire::{envelope_parse, message, Payload, ResourcePacket};
use crate::SynchronizeOutbound;
use core::ops::Deref;
use vstd::prelude::*;

verus! {

pub type InboundIdentifier = String;

pub type OutboundIdentifier = String;

/// A node with one peer. `sent` records, oldest first, what the client
/// handed to its transport.
pub struct Client<C: SynchronizeOutbound<S>, S: Copy, T: Diffable> {
    pub server: S,
    pub node: Node<
        C,
        InboundIdentifier,
        OutboundIdentifier,
        HashMapResources<InboundIdentifier, OutboundIdentifier, T>,
    >,
    pub sent: Ghost<Seq<(S, Seq<u8>)>>,
}

/// What a pass over the first `count` of `entries` hands to the transport,
/// where `offers` holds what each resource offered: one message to `server`
/// for each touched resource that offered a payload.
pub open spec fn pushed<S, T: Diffable>(
    server: S,
    entries: Seq<(Seq<char>, OutboundResource<T>)>,
    offers: Seq<Option<Payload>>,
    count: int,
) -> Seq<(S, Seq<u8>)>
    decreases count,
{
    if count <= 0 {
        Seq::empty()
    } else {
        let rest = pushed(server, entries, offers, count - 1);
        let entry = entries[count - 1];
        if entry.1.spec_is_dirty() && offers[count - 1] is Some {
            rest.push((server, message(entry.0, offers[count - 1].unwrap())))
        } else {
            rest
        }
    }
}

/// What a pass hands over for its first entries does not depend on what
/// later entries offer.
pub proof fn lemma_pushed_prefix<S, T: Diffable>(
    server: S,
    entries: Seq<(Seq<char>, OutboundResource<T>)>,
    offers: Seq<Option<Payload>>,
    more: Seq<Option<Payload>>,
    count: int,
)
    requires
        count <= offers.len() <= more.len(),
        forall|i: int| 0 <= i < offers.len() ==> offers[i] == more[i],
    ensures
        pushed(server, entries, offers, count) == pushed(server, entries, more, count),
    decreases count,
{
    if count > 0 {
        lemma_pushed_prefix(server, entries, offers, more, count - 1);
    }
}

/// A pass over `entries` in which the resources offered `offered` took the
/// record of what was sent from `before` to `after`: each touched resource
/// offered what `offers` allows, forced exactly where it had no baseline.
pub open spec fn passes<S, T: Diffable>(
    server: S,
    entries: Seq<(Seq<char>, OutboundResource<T>)>,
    offered: Seq<Option<Payload>>,
    before: Seq<(S, Seq<u8>)>,
    after: Seq<(S, Seq<u8>)>,
) -> bool {
    &&& offered.len() == entries.len()
    &&& forall|i: int|
        0 <= i < entries.len() && (#[trigger] entries[i]).1.spec_is_dirty() ==> offers(
            entries[i].1,
            entries[i].1.spec_generation() is None,
            offered[i],
        )
    &&& after == before + pushed(server, entries, offered, entries.len() as int)
}

impl<C: SynchronizeOutbound<S>, S: Copy, T: Diffable> Client<C, S, T> {
    /// A client of `server` over the transport `node`, with nothing
    /// registered and nothing sent.
    pub fn new(node: C, server: S) -> (client: Self)
        ensures
            client.server == server,
            client.node.node == node,
            client.node.resources.inbound_resources@.len() == 0,
            client.node.resources.outbound_resources@.len() == 0,
            client.sent@.len() == 0,
    {
        Client { server, node: Node::new(node), sent: Ghost(Seq::empty()) }
    }

    /// Sends every touched outbound resource to the server and settles it.
    ///
    /// Each touched resource offers a payload: its whole value if it has no
    /// baseline yet, else what `offers` allows unforced. What is offered is
    /// handed to the transport, in the order of the registry. Then the
    /// resource gets a new baseline and counts as untouched, whether it
    /// offered anything or not. Untouched resources stay as they are.
    pub fn synchronize_outbound(&mut self)
        requires
            forall|i: int|
                0 <= i < old(self).node.resources.outbound_resources@.len() ==> (
                #[trigger] old(self).node.resources.outbound_resources@[i]).1.spec_generation()
                    != Some(usize::MAX),
        ensures
            final(self).server == old(self).server,
            final(self).node.resources.inbound_resources == old(self).node.resources.inbound_resources,
            final(self).node.resources.outbound_resources@.len() == old(self).node.resources.outbound_resources@.len(),
            forall|i: int|
                #![trigger final(self).node.resources.outbound_resources@[i]]
                0 <= i < old(self).node.resources.outbound_resources@.len() ==> {
                    let before = old(self).node.resources.outbound_resources@[i];
                    let after = final(self).node.resources.outbound_resources@[i];
                    &&& after.0 == before.0
                    &&& before.1.spec_is_dirty() ==> settled(before.1, after.1)
                    &&& !before.1.spec_is_dirty() ==> after.1 == before.1
                },
            exists|offered: Seq<Option<Payload>>| #[trigger]
                passes(
                    old(self).server,
                    old(self).node.resources.outbound_resources@,
                    offered,
                    old(self).sent@,
                    final(self).sent@,
                ),
    {
        let ghost entries = self.node.resources.outbound_resources@;
        let ghost before_sent = self.sent@;
        let ghost mut offered: Seq<Option<Payload>> = Seq::empty();
        let n: usize = self.node.resources.outbound_resources.len();
        let mut i: usize = 0;
        while i < n
            invariant
                i <= n,
                n == entries.len(),
                self.node.resources.outbound_resources@.len() == n,
                self.server == old(self).server,
                self.node.resources.inbound_resources == old(self).node.resources.inbound_resources,
                forall|j: int|
                    0 <= j < n ==> (#[trigger] entries[j]).1.spec_generation() != Some(usize::MAX),
                forall|j: int|
                    #![trigger self.node.resources.outbound_resources@[j]]
                    0 <= j < n ==> {
                        let before = entries[j];
                        let after = self.node.resources.outbound_resources@[j];
                        &&& after.0 == before.0
                        &&& j < i && before.1.spec_is_dirty() ==> settled(before.1, after.1)
                        &&& j >= i || !before.1.spec_is_dirty() ==> after.1 == before.1
                    },
                offered.len() == i,
                forall|j: int|
                    0 <= j < i && (#[trigger] entries[j]).1.spec_is_dirty() ==> offers(
                        entries[j].1,
                        entries[j].1.spec_generation() is None,
                        offered[j],
                    ),
                self.sent@ == before_sent + pushed(self.server, entries, offered, i as int),
            decreases n - i,
        {
            let ghost entry = self.node.resources.outbound_resources@[i as int];
            assert(entry.0 == entries[i as int].0 && entry.1 == entries[i as int].1);
            let ghost had = offered;
            let resource = self.node.resources.outbound_resources.value_at(i);
            if resource.is_dirty() {
                let offer = resource.payload(resource.generation().is_none());
                proof {
                    offered = had.push(offer);
                    lemma_pushed_prefix(self.server, entries, had, offered, i as int);
                }
                match offer {
                    Some(payload) => {
                        let identifier = self.node.resources.outbound_resources.key_at(
                            i,
                        ).duplicate();
                        let packet = ResourcePacket::carrying(identifier, &payload);
                        let bytes = packet.encode();
                        assert(bytes@ == message(entry.0, payload));
                        hand_over(
                            &mut self.node.node,
                            &mut self.sent,
                            self.server,
                            Ghost(self.server),
                            bytes,
                        );
                    },
                    None => {},
                }
                let resource = self.node.resources.outbound_resources.value_at_mut(i);
                resource.snapshot();
                resource.set_dirty(false);
            } else {
                proof {
                    offered = had.push(None);
                    lemma_pushed_prefix(self.server, entries, had, offered, i as int);
                }
            }
            i = i + 1;
        }
        proof {
            assert(passes(self.server, entries, offered, before_sent, self.sent@));
        }
    }

    /// Exclusive access to the node; the server's address and the record of
    /// what was sent stay as they are.
    pub fn deref_mut(&mut self) -> (node: &mut Node<
        C,
        InboundIdentifier,
        OutboundIdentifier,
        HashMapResources<InboundIdentifier, OutboundIdentifier, T>,
    >)
        ensures
            *node == old(self).node,
            final(self).node == *final(node),
            final(self).server == old(self).server,
            final(self).sent == old(self).sent,
    {
        &mut self.node
    }

    /// Takes in a message from the server. Bytes that hold no envelope are
    /// dropped; an envelope is handed on as `deliver` says.
    pub fn synchronize_inbound(&mut self, data: Vec<u8>) -> (delivery: Delivery)
        ensures
            final(self).server == old(self).server,
            final(self).sent == old(self).sent,
            final(self).node.resources.outbound_resources == old(self).node.resources.outbound_resources,
            match envelope_parse(data@) {
                None => delivery == Delivery::MalformedEnvelope
                    && final(self).node.resources.inbound_resources@ == old(self).node.resources.inbound_resources@,
                Some((identifier, payload)) => delivers(
                    old(self).node.resources.inbound_resources@,
                    identifier,
                    payload,
                    final(self).node.resources.inbound_resources@,
                    delivery,
                ),
            },
    {
        match ResourcePacket::decode(&data) {
            Some(packet) => self.node.resources.deliver(&packet.identifier, &packet.data),
            None => Delivery::MalformedEnvelope,
        }
    }
}

impl<C: SynchronizeOutbound<S>, S: Copy, T: Diffable> Deref for Client<C, S, T> {
    type Target = Node<
        C,
        InboundIdentifier,
        OutboundIdentifier,
        HashMapResources<InboundIdentifier, OutboundIdentifier, T>,
    >;

    fn deref(&self) -> (node: &Self::Target)
        ensures
            *node == self.node,
    {
        &self.node
    }
}

} // verus!
