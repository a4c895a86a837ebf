//! The side that keeps many peers in step, each with its own baseline.

use crate::fanout::{
    announced, covers, dispatched, fanned, lemma_dispatched_prefix, lemma_same_baselines, noted,
    offered, processed, recorded, relayed, told, Generations, Offer, OutboundKey, Peers,
};
use crate::hand_over;
use crate::node::Node;
use crate::resources::{
    delivers, next_generation, settled, Delivery, Diffable, HashMapResources, OutboundResource,
};
use crate::table::{
    distinct_keys, has_key, index_of, lemma_index_of, lemma_lookup_upsert, lemma_lookup_without,
    lemma_viewed, lemma_viewed_update, lemma_viewed_upsert, lemma_viewed_without, lookup, upsert,
    viewed, without, Identifier, Table,
};
use crate::wire::{envelope_parse, message, Payload, ResourcePacket};
use crate::{SynchronizeOutbound, Target};
use core::ops::Deref;
use vstd::prelude::*;

verus! {

/// Names an inbound resource of a server: the resource's name and the peer
/// that pushes it.
#[derive(Debug, Clone, PartialEq, Eq, Hash)]
pub struct InboundIdentifier<I>(pub String, pub I);

/// Names an outbound resource of a server: the resource's name and the peers
/// that it is pushed to.
#[derive(Debug, Clone, PartialEq, Eq, Hash)]
pub struct OutboundIdentifier<I>(pub String, pub Target<I>);

impl<I: Identifier> Identifier for InboundIdentifier<I> {
    type Key = (Seq<char>, I::Key);

    open spec fn key(&self) -> (Seq<char>, I::Key) {
        (self.0@, self.1.key())
    }

    fn same_as(&self, other: &Self) -> (same: bool) {
        self.0.same_as(&other.0) && self.1.same_as(&other.1)
    }

    fn duplicate(&self) -> (copy: Self) {
        InboundIdentifier(self.0.duplicate(), self.1.duplicate())
    }
}

/// The key of a target: the key of its peer, or all peers.
pub open spec fn target_key<I: Identifier>(target: Target<I>) -> Target<I::Key> {
    match target {
        Target::Specific(peer) => Target::Specific(peer.key()),
        Target::All => Target::All,
    }
}

impl<I: Identifier> Identifier for OutboundIdentifier<I> {
    type Key = (Seq<char>, Target<I::Key>);

    open spec fn key(&self) -> (Seq<char>, Target<I::Key>) {
        (self.0@, target_key(self.1))
    }

    fn same_as(&self, other: &Self) -> (same: bool) {
        self.0.same_as(&other.0) && match (&self.1, &other.1) {
            (Target::Specific(a), Target::Specific(b)) => a.same_as(b),
            (Target::All, Target::All) => true,
            _ => false,
        }
    }

    fn duplicate(&self) -> (copy: Self) {
        let target = match &self.1 {
            Target::Specific(peer) => Target::Specific(peer.duplicate()),
            Target::All => Target::All,
        };
        OutboundIdentifier(self.0.duplicate(), target)
    }
}

impl<I> From<String> for OutboundIdentifier<I> {
    fn from(s: String) -> (identifier: Self)
        ensures
            identifier.0 == s,
            identifier.1 is All,
    {
        OutboundIdentifier(s, Target::All)
    }
}

impl<'a, I> From<&'a str> for OutboundIdentifier<I> {
    fn from(s: &'a str) -> (identifier: Self)
        ensures
            identifier.0@ == s@,
            identifier.1 is All,
    {
        OutboundIdentifier(s.to_owned(), Target::All)
    }
}

impl<'a, I> vstd::std_specs::convert::FromSpecImpl<&'a str> for OutboundIdentifier<I> {
    open spec fn obeys_from_spec() -> bool {
        false
    }

    open spec fn from_spec(s: &'a str) -> Self {
        arbitrary()
    }
}

impl<I> vstd::std_specs::convert::FromSpecImpl<String> for OutboundIdentifier<I> {
    open spec fn obeys_from_spec() -> bool {
        true
    }

    open spec fn from_spec(s: String) -> Self {
        OutboundIdentifier(s, Target::All)
    }
}

/// A node with any number of peers, each with its own record of what it
/// has a baseline of. `sent` records, oldest first, what the server handed
/// to its transport and for which peer.
pub struct Server<S: SynchronizeOutbound<C>, C: Identifier, T: Diffable> {
    pub connections: Table<C, Generations<C>>,
    pub node: Node<
        S,
        InboundIdentifier<C>,
        OutboundIdentifier<C>,
        HashMapResources<InboundIdentifier<C>, OutboundIdentifier<C>, T>,
    >,
    pub sent: Ghost<Seq<(C::Key, Seq<u8>)>>,
}

impl<S: SynchronizeOutbound<C>, C: Identifier, T: Diffable> Server<S, C, T> {
    /// The connected peers and what each has a baseline of.
    pub open spec fn peers(&self) -> Peers<C::Key> {
        viewed(self.connections@)
    }

    /// The outbound resources in the order of the registry.
    pub open spec fn outbound(&self) -> Seq<(OutboundKey<C::Key>, OutboundResource<T>)> {
        self.node.resources.outbound_resources@
    }

    /// A server over the transport `node`, with no peer, nothing registered
    /// and nothing sent.
    pub fn new(node: S) -> (server: Self)
        ensures
            server.node.node == node,
            server.peers().len() == 0,
            server.node.resources.inbound_resources@.len() == 0,
            server.outbound().len() == 0,
            server.sent@.len() == 0,
    {
        Server { connections: Table::new(), node: Node::new(node), sent: Ghost(Seq::empty()) }
    }

    /// Takes `connection` in as a peer that has no baseline of anything. A
    /// peer that was connected already loses its baselines.
    pub fn register_connection(&mut self, connection: C)
        ensures
            final(self).peers() == upsert(old(self).peers(), connection.key(), Seq::empty()),
            forall|peer: C::Key|
                #![trigger lookup(final(self).peers(), peer)]
                lookup(final(self).peers(), peer) == if peer == connection.key() {
                    Some(Seq::empty())
                } else {
                    lookup(old(self).peers(), peer)
                },
            final(self).node == old(self).node,
            final(self).sent == old(self).sent,
    {
        proof {
            use_type_invariant(&self.connections);
            self.connections.lemma_well_formed();
            lemma_viewed(self.connections@, connection.key());
            assert forall|peer: C::Key|
                #![trigger lookup(upsert(self.peers(), connection.key(), Seq::empty()), peer)]
                lookup(upsert(self.peers(), connection.key(), Seq::empty()), peer) == if peer
                    == connection.key() {
                    Some(Seq::empty())
                } else {
                    lookup(self.peers(), peer)
                } by {
                lemma_lookup_upsert(self.peers(), connection.key(), Seq::empty(), peer);
            }
        }
        let generations: Generations<C> = Table::new();
        proof {
            lemma_viewed_upsert(self.connections@, connection.key(), generations);
        }
        self.connections.insert(connection, generations);
    }

    /// Forgets `connection` and all that was recorded for it.
    pub fn remove_connection(&mut self, connection: C)
        ensures
            final(self).peers() == without(old(self).peers(), connection.key()),
            forall|peer: C::Key|
                #![trigger lookup(final(self).peers(), peer)]
                lookup(final(self).peers(), peer) == if peer == connection.key() {
                    None
                } else {
                    lookup(old(self).peers(), peer)
                },
            final(self).node == old(self).node,
            final(self).sent == old(self).sent,
    {
        proof {
            use_type_invariant(&self.connections);
            self.connections.lemma_well_formed();
            lemma_viewed_without(self.connections@, connection.key());
            lemma_viewed(self.connections@, connection.key());
            assert forall|peer: C::Key|
                #![trigger lookup(without(self.peers(), connection.key()), peer)]
                lookup(without(self.peers(), connection.key()), peer) == if peer
                    == connection.key() {
                    None
                } else {
                    lookup(self.peers(), peer)
                } by {
                lemma_lookup_without(self.peers(), connection.key(), peer);
            }
        }
        self.connections.remove(&connection);
    }

    pub fn is_connected(&self, connection: C) -> (connected: bool)
        ensures
            connected == has_key(self.peers(), connection.key()),
            connected == lookup(self.peers(), connection.key()) is Some,
    {
        proof {
            use_type_invariant(&self.connections);
            self.connections.lemma_well_formed();
            lemma_viewed(self.connections@, connection.key());
        }
        self.connections.contains_key(&connection)
    }

    /// Exclusive access to the node; the peers and the record of what was
    /// sent stay as they are.
    pub fn deref_mut(&mut self) -> (node: &mut Node<
        S,
        InboundIdentifier<C>,
        OutboundIdentifier<C>,
        HashMapResources<InboundIdentifier<C>, OutboundIdentifier<C>, T>,
    >)
        ensures
            *node == old(self).node,
            final(self).node == *final(node),
            final(self).connections == old(self).connections,
            final(self).sent == old(self).sent,
    {
        &mut self.node
    }

    /// Takes in a message from the peer `connection`. Bytes that hold no
    /// envelope are dropped; an envelope is handed to the inbound resource
    /// of that name and that peer, as `deliver` says.
    pub fn synchronize_inbound(&mut self, connection: C, data: Vec<u8>) -> (delivery: Delivery)
        ensures
            final(self).connections == old(self).connections,
            final(self).sent == old(self).sent,
            final(self).node.resources.outbound_resources == old(self).node.resources.outbound_resources,
            match envelope_parse(data@) {
                None => delivery == Delivery::MalformedEnvelope
                    && final(self).node.resources.inbound_resources@ == old(self).node.resources.inbound_resources@,
                Some((name, payload)) => delivers(
                    old(self).node.resources.inbound_resources@,
                    (name, connection.key()),
                    payload,
                    final(self).node.resources.inbound_resources@,
                    delivery,
                ),
            },
    {
        match ResourcePacket::decode(&data) {
            Some(packet) => {
                let identifier = InboundIdentifier(packet.identifier, connection);
                self.node.resources.deliver(&identifier, &packet.data)
            },
            None => Delivery::MalformedEnvelope,
        }
    }
}

/// Gives a resource that was sent its new baseline and says which
/// generation that is.
fn rebase<T: Diffable>(resource: &mut OutboundResource<T>) -> (generation: usize)
    requires
        old(resource).spec_generation() != Some(usize::MAX),
    ensures
        final(resource).value() == old(resource).value(),
        final(resource).baseline() matches Some(copy) && cloned(old(resource).value(), copy),
        final(resource).spec_generation() == Some(generation),
        generation == next_generation(old(resource).spec_generation()),
        final(resource).spec_is_dirty() == old(resource).spec_is_dirty(),
{
    resource.snapshot();
    match resource.generation() {
        Some(generation) => generation,
        None => 0,
    }
}

/// The message of an offer, if there is one.
pub open spec fn wrapped(name: Seq<char>, offer: Option<Payload>) -> Option<Seq<u8>> {
    match offer {
        Some(payload) => Some(message(name, payload)),
        None => None,
    }
}

/// The bytes of what `wrap` returned.
pub open spec fn bytes_of(wrapped: Option<Vec<u8>>) -> Option<Seq<u8>> {
    match wrapped {
        Some(bytes) => Some(bytes@),
        None => None,
    }
}

/// Puts an offer into its envelope.
fn wrap(name: &String, offer: &Option<Payload>) -> (bytes: Option<Vec<u8>>)
    ensures
        bytes_of(bytes) == wrapped(name@, *offer),
{
    match offer {
        Some(payload) => {
            let packet = ResourcePacket::carrying(name.duplicate(), payload);
            Some(packet.encode())
        },
        None => None,
    }
}

/// A copy of `bytes`.
fn copy_bytes(bytes: &Vec<u8>) -> (copy: Vec<u8>)
    ensures
        copy@ == bytes@,
{
    let copy = bytes.clone();
    assert(copy@ =~= bytes@);
    copy
}

impl<S: SynchronizeOutbound<C>, C: Identifier, T: Diffable> Server<S, C, T> {
    /// Takes the generation of `identifier` out of the record of the peer
    /// at `index`.
    fn forget(&mut self, index: usize, identifier: &OutboundIdentifier<C>)
        requires
            index < old(self).peers().len(),
        ensures
            final(self).peers() == old(self).peers().update(
                index as int,
                (
                    old(self).peers()[index as int].0,
                    without(old(self).peers()[index as int].1, identifier.key()),
                ),
            ),
            final(self).node == old(self).node,
            final(self).sent == old(self).sent,
    {
        let ghost before = self.connections@;
        let generations = self.connections.value_at_mut(index);
        generations.remove(identifier);
        proof {
            lemma_viewed_update(before, index as int, self.connections@[index as int].1);
        }
    }

    /// Puts `generation` for `identifier` into the record of the peer at
    /// `index`.
    fn record(&mut self, index: usize, identifier: OutboundIdentifier<C>, generation: usize)
        requires
            index < old(self).peers().len(),
        ensures
            final(self).peers() == old(self).peers().update(
                index as int,
                (
                    old(self).peers()[index as int].0,
                    upsert(old(self).peers()[index as int].1, identifier.key(), generation),
                ),
            ),
            noted(
                old(self).peers()[index as int].1,
                final(self).peers()[index as int].1,
                identifier.key(),
                generation,
            ),
            final(self).node == old(self).node,
            final(self).sent == old(self).sent,
    {
        let ghost before = self.connections@;
        let generations = self.connections.value_at_mut(index);
        proof {
            use_type_invariant(&*generations);
            generations.lemma_well_formed();
            assert forall|key: OutboundKey<C::Key>| #[trigger]
                lookup(upsert(generations@, identifier.key(), generation), key) == if key
                    == identifier.key() {
                    Some(generation)
                } else {
                    lookup(generations@, key)
                } by {
                lemma_lookup_upsert(generations@, identifier.key(), generation, key);
            }
        }
        generations.insert(identifier, generation);
        proof {
            lemma_viewed_update(before, index as int, self.connections@[index as int].1);
        }
    }

    /// Hands over, for the peer at `index`, the offer chosen for it.
    fn tell(
        &mut self,
        index: usize,
        identifier: &OutboundIdentifier<C>,
        forced: &Option<Vec<u8>>,
        unforced: &Option<Vec<u8>>,
        Ghost(offer): Ghost<Offer>,
    )
        requires
            index < old(self).peers().len(),
            bytes_of(*forced) == wrapped(identifier.0@, offer.forced),
            bytes_of(*unforced) == wrapped(identifier.0@, offer.unforced),
        ensures
            final(self).sent@ == old(self).sent@ + told(
                old(self).peers()[index as int],
                identifier.key(),
                offer,
            ),
            final(self).connections == old(self).connections,
            final(self).node.resources == old(self).node.resources,
    {
        let generations = self.connections.value_at(index);
        proof {
            use_type_invariant(generations);
            generations.lemma_well_formed();
        }
        let known = generations.contains_key(identifier);
        let bytes = if known {
            unforced
        } else {
            forced
        };
        let ghost before = self.sent@;
        match bytes {
            Some(bytes) => {
                let peer = self.connections.key_at(index).duplicate();
                let copy = copy_bytes(bytes);
                hand_over(&mut self.node.node, &mut self.sent, peer, Ghost(peer.key()), copy);
                assert(self.sent@ =~= before + told(
                    self.peers()[index as int],
                    identifier.key(),
                    offer,
                ));
            },
            None => {
                assert(self.sent@ =~= before + told(
                    self.peers()[index as int],
                    identifier.key(),
                    offer,
                ));
            },
        }
    }

    /// Hands over, for every peer in turn, the offer chosen for it.
    fn announce(
        &mut self,
        identifier: &OutboundIdentifier<C>,
        forced: &Option<Vec<u8>>,
        unforced: &Option<Vec<u8>>,
        Ghost(offer): Ghost<Offer>,
    )
        requires
            bytes_of(*forced) == wrapped(identifier.0@, offer.forced),
            bytes_of(*unforced) == wrapped(identifier.0@, offer.unforced),
        ensures
            final(self).sent@ == old(self).sent@ + fanned(
                old(self).peers(),
                identifier.key(),
                offer,
                old(self).peers().len() as int,
            ),
            final(self).connections == old(self).connections,
            final(self).node.resources == old(self).node.resources,
    {
        let ghost before = self.sent@;
        let n: usize = self.connections.len();
        let mut j: usize = 0;
        while j < n
            invariant
                j <= n,
                n == self.peers().len(),
                self.connections == old(self).connections,
                self.node.resources == old(self).node.resources,
                bytes_of(*forced) == wrapped(identifier.0@, offer.forced),
                bytes_of(*unforced) == wrapped(identifier.0@, offer.unforced),
                self.sent@ == before + fanned(self.peers(), identifier.key(), offer, j as int),
            decreases n - j,
        {
            let ghost had = self.sent@;
            self.tell(j, identifier, forced, unforced, Ghost(offer));
            assert(self.sent@ =~= before + fanned(
                self.peers(),
                identifier.key(),
                offer,
                j as int + 1,
            ));
            j = j + 1;
        }
    }

    /// Puts `generation` for `identifier` into the record of every peer.
    fn record_all(&mut self, identifier: &OutboundIdentifier<C>, generation: usize)
        ensures
            final(self).peers().len() == old(self).peers().len(),
            forall|j: int|
                #![trigger final(self).peers()[j]]
                0 <= j < old(self).peers().len() ==> {
                    &&& final(self).peers()[j].0 == old(self).peers()[j].0
                    &&& noted(
                        old(self).peers()[j].1,
                        final(self).peers()[j].1,
                        identifier.key(),
                        generation,
                    )
                },
            final(self).node == old(self).node,
            final(self).sent == old(self).sent,
    {
        let ghost before = self.peers();
        let n: usize = self.connections.len();
        let mut j: usize = 0;
        while j < n
            invariant
                j <= n,
                n == before.len(),
                self.peers().len() == n,
                self.node == old(self).node,
                self.sent == old(self).sent,
                forall|k: int|
                    #![trigger self.peers()[k]]
                    0 <= k < n ==> {
                        &&& self.peers()[k].0 == before[k].0
                        &&& k < j ==> noted(
                            before[k].1,
                            self.peers()[k].1,
                            identifier.key(),
                            generation,
                        )
                        &&& k >= j ==> self.peers()[k].1 == before[k].1
                    },
            decreases n - j,
        {
            self.record(j, identifier.duplicate(), generation);
            j = j + 1;
        }
    }

    /// Deals with the outbound resource at `index`: asks it what it offers,
    /// hands that over, settles the resource and records its new generation
    /// for the peers that it goes to.
    fn push(&mut self, index: usize) -> (offer: Ghost<Offer>)
        requires
            index < old(self).outbound().len(),
            old(self).outbound()[index as int].1.spec_generation() != Some(usize::MAX),
        ensures
            final(self).node.resources.inbound_resources == old(self).node.resources.inbound_resources,
            final(self).outbound() == old(self).outbound().update(
                index as int,
                (old(self).outbound()[index as int].0, final(self).outbound()[index as int].1),
            ),
            final(self).sent@ == old(self).sent@ + announced(
                old(self).peers(),
                old(self).outbound()[index as int],
                offer@,
            ),
            processed(old(self).peers(), old(self).outbound()[index as int]) ==> offered(
                old(self).peers(),
                old(self).outbound()[index as int],
                offer@,
            ) && settled(
                old(self).outbound()[index as int].1,
                final(self).outbound()[index as int].1,
            ),
            !processed(old(self).peers(), old(self).outbound()[index as int]) ==> final(self).outbound()[index as int].1 == old(self).outbound()[index as int].1,
            final(self).peers().len() == old(self).peers().len(),
            forall|j: int|
                #![trigger final(self).peers()[j]]
                0 <= j < old(self).peers().len() ==> {
                    let entry = old(self).outbound()[index as int];
                    &&& final(self).peers()[j].0 == old(self).peers()[j].0
                    &&& if processed(old(self).peers(), entry) && covers(
                        entry.0.1,
                        old(self).peers()[j].0,
                    ) {
                        noted(
                            old(self).peers()[j].1,
                            final(self).peers()[j].1,
                            entry.0,
                            next_generation(entry.1.spec_generation()) as usize,
                        )
                    } else {
                        final(self).peers()[j].1 == old(self).peers()[j].1
                    }
                },
    {
        proof {
            use_type_invariant(&self.connections);
            self.connections.lemma_well_formed();
        }
        let ghost peers = self.peers();
        let ghost entries = self.outbound();
        let ghost entry = self.outbound()[index as int];
        let ghost before = self.sent@;
        let ghost nothing = Offer { forced: None, unforced: None };
        let resource = self.node.resources.outbound_resources.value_at(index);
        if !resource.is_dirty() {
            assert(self.outbound() =~= entries.update(index as int, entry));
            assert(self.sent@ =~= before + announced(peers, entry, nothing));
            return Ghost(nothing);
        }
        let identifier = self.node.resources.outbound_resources.key_at(index).duplicate();
        assert(identifier.key() == entry.0);
        match &identifier.1 {
            Target::Specific(peer) => {
                proof {
                    lemma_viewed(self.connections@, peer.key());
                }
                match self.connections.position(peer) {
                    None => {
                        assert(self.outbound() =~= entries.update(index as int, entry));
                        assert(self.sent@ =~= before + announced(peers, entry, nothing));
                        Ghost(nothing)
                    },
                    Some(j) => {
                        let generations = self.connections.value_at(j);
                        proof {
                            use_type_invariant(generations);
                            generations.lemma_well_formed();
                            lemma_index_of(peers, j as int);
                        }
                        let known = generations.contains_key(&identifier);
                        let resource = self.node.resources.outbound_resources.value_at(index);
                        let offer = resource.payload(!known);
                        let ghost witness = Offer { forced: offer, unforced: offer };
                        let bytes = wrap(&identifier.0, &offer);
                        match bytes {
                            Some(bytes) => {
                                hand_over(
                                    &mut self.node.node,
                                    &mut self.sent,
                                    peer.duplicate(),
                                    Ghost(peer.key()),
                                    bytes,
                                );
                            },
                            None => {},
                        }
                        assert(self.sent@ =~= before + announced(peers, entry, witness));
                        let generation: usize = rebase(
                            self.node.resources.outbound_resources.value_at_mut(index),
                        );
                        proof {
                            assert forall|k: int| 0 <= k < peers.len() && k != j implies !covers(
                                entry.0.1,
                                (#[trigger] peers[k]).0,
                            ) by {
                                if k < j {
                                    assert(peers[k].0 != peers[j as int].0);
                                } else {
                                    assert(peers[j as int].0 != peers[k].0);
                                }
                            }
                        }
                        self.record(j, identifier, generation);
                        self.node.resources.outbound_resources.value_at_mut(index).set_dirty(false);
                        Ghost(witness)
                    },
                }
            },
            Target::All => {
                let resource = self.node.resources.outbound_resources.value_at(index);
                let forced = resource.payload(true);
                let unforced = resource.payload(false);
                let ghost witness = Offer { forced, unforced };
                let forced_bytes = wrap(&identifier.0, &forced);
                let unforced_bytes = wrap(&identifier.0, &unforced);
                self.announce(&identifier, &forced_bytes, &unforced_bytes, Ghost(witness));
                let generation: usize = rebase(
                    self.node.resources.outbound_resources.value_at_mut(index),
                );
                self.record_all(&identifier, generation);
                self.node.resources.outbound_resources.value_at_mut(index).set_dirty(false);
                Ghost(witness)
            },
        }
    }

    /// Sends every touched outbound resource to the peers that it goes to,
    /// and settles it.
    ///
    /// The pass deals with a touched resource if its target is `All` or a
    /// connected peer. A resource for a specific peer offers once, forced
    /// exactly where the peer has no baseline of it; a resource for all
    /// offers twice, and each peer is told the forced offer where it has no
    /// baseline and the unforced one, if there is one, where it has. Then
    /// the resource gets a new baseline and counts as untouched, and its
    /// new generation is recorded for the peers that it goes to. All other
    /// resources stay as they are, and so does what was recorded of them.
    pub fn synchronize_outbound(&mut self)
        requires
            forall|i: int|
                0 <= i < old(self).outbound().len() ==> (#[trigger] old(self).outbound()[i]).1.spec_generation() != Some(usize::MAX),
        ensures
            final(self).node.resources.inbound_resources == old(self).node.resources.inbound_resources,
            final(self).outbound().len() == old(self).outbound().len(),
            forall|i: int|
                #![trigger final(self).outbound()[i]]
                0 <= i < old(self).outbound().len() ==> {
                    let before = old(self).outbound()[i];
                    let after = final(self).outbound()[i];
                    &&& after.0 == before.0
                    &&& processed(old(self).peers(), before) ==> settled(before.1, after.1)
                    &&& !processed(old(self).peers(), before) ==> after.1 == before.1
                },
            final(self).peers().len() == old(self).peers().len(),
            forall|j: int|
                #![trigger final(self).peers()[j]]
                0 <= j < old(self).peers().len() ==> final(self).peers()[j].0 == old(self).peers()[j].0,
            forall|j: int, key: OutboundKey<C::Key>|
                #![trigger lookup(final(self).peers()[j].1, key)]
                0 <= j < old(self).peers().len() ==> lookup(final(self).peers()[j].1, key)
                    == recorded(
                    old(self).outbound(),
                    old(self).outbound().len() as int,
                    old(self).peers()[j],
                    key,
                ),
            exists|offered_all: Seq<Offer>| #[trigger]
                relayed(
                    old(self).peers(),
                    old(self).outbound(),
                    offered_all,
                    old(self).sent@,
                    final(self).sent@,
                ),
    {
        let ghost peers = self.peers();
        let ghost entries = self.outbound();
        let ghost before = self.sent@;
        let ghost mut offered_all: Seq<Offer> = Seq::empty();
        proof {
            use_type_invariant(&self.connections);
            self.connections.lemma_well_formed();
            lemma_viewed(self.connections@, arbitrary());
            use_type_invariant(&self.node.resources.outbound_resources);
            self.node.resources.outbound_resources.lemma_well_formed();
        }
        let n: usize = self.node.resources.outbound_resources.len();
        let mut i: usize = 0;
        while i < n
            invariant
                i <= n,
                n == entries.len(),
                self.outbound().len() == n,
                self.peers().len() == peers.len(),
                distinct_keys(peers),
                distinct_keys(entries),
                self.node.resources.inbound_resources == old(self).node.resources.inbound_resources,
                forall|k: int|
                    0 <= k < n ==> (#[trigger] entries[k]).1.spec_generation() != Some(usize::MAX),
                forall|k: int|
                    #![trigger self.outbound()[k]]
                    0 <= k < n ==> {
                        let first = entries[k];
                        let now = self.outbound()[k];
                        &&& now.0 == first.0
                        &&& k < i && processed(peers, first) ==> settled(first.1, now.1)
                        &&& k >= i || !processed(peers, first) ==> now.1 == first.1
                    },
                forall|j: int|
                    #![trigger self.peers()[j]]
                    0 <= j < peers.len() ==> self.peers()[j].0 == peers[j].0,
                forall|j: int, key: OutboundKey<C::Key>|
                    #![trigger lookup(self.peers()[j].1, key)]
                    0 <= j < peers.len() ==> lookup(self.peers()[j].1, key) == recorded(
                        entries,
                        i as int,
                        peers[j],
                        key,
                    ),
                offered_all.len() == i,
                forall|k: int|
                    0 <= k < i && processed(peers, #[trigger] entries[k]) ==> offered(
                        peers,
                        entries[k],
                        offered_all[k],
                    ),
                self.sent@ == before + dispatched(peers, entries, offered_all, i as int),
            decreases n - i,
        {
            let ghost now = self.peers();
            let ghost entry = self.outbound()[i as int];
            let ghost had = offered_all;
            assert(entry.0 == entries[i as int].0 && entry.1 == entries[i as int].1);
            proof {
                lemma_index_of(entries, i as int);
                assert forall|j: int| 0 <= j < now.len() implies (#[trigger] now[j]).0
                    == peers[j].0 && (lookup(now[j].1, entry.0) is None <==> lookup(
                    peers[j].1,
                    entry.0,
                ) is None) by {
                    assert(self.peers()[j].0 == peers[j].0);
                    assert(lookup(self.peers()[j].1, entry.0) == recorded(
                        entries,
                        i as int,
                        peers[j],
                        entry.0,
                    ));
                }
                assert(distinct_keys(now)) by {
                    assert forall|a: int, b: int| 0 <= a < b < now.len() implies (
                    #[trigger] now[a]).0 != (#[trigger] now[b]).0 by {
                        assert(self.peers()[a].0 == peers[a].0);
                        assert(self.peers()[b].0 == peers[b].0);
                        assert(peers[a].0 != peers[b].0);
                    }
                }
            }
            let offer = self.push(i);
            proof {
                lemma_same_baselines(now, peers, entry, offer@);
                offered_all = had.push(offer@);
                lemma_dispatched_prefix(peers, entries, had, offered_all, i as int);
                assert(self.sent@ =~= before + dispatched(
                    peers,
                    entries,
                    offered_all,
                    i as int + 1,
                ));
                assert forall|j: int, key: OutboundKey<C::Key>|
                    #![trigger lookup(self.peers()[j].1, key)]
                    0 <= j < peers.len() implies lookup(self.peers()[j].1, key) == recorded(
                    entries,
                    i as int + 1,
                    peers[j],
                    key,
                ) by {
                    assert(now[j].0 == peers[j].0);
                    assert(lookup(now[j].1, key) == recorded(entries, i as int, peers[j], key));
                    if has_key(entries, key) && key != entry.0 {
                        assert(entries[index_of(entries, key)].0 == key);
                    }
                    if processed(peers, entry) && covers(entry.0.1, peers[j].0) {
                        assert(noted(
                            now[j].1,
                            self.peers()[j].1,
                            entry.0,
                            next_generation(entry.1.spec_generation()) as usize,
                        ));
                    } else {
                        assert(self.peers()[j].1 == now[j].1);
                        if entry.1.spec_is_dirty() && covers(entry.0.1, peers[j].0) {
                            assert(has_key(peers, peers[j].0));
                        }
                    }
                }
            }
            i = i + 1;
        }
        proof {
            assert(relayed(peers, entries, offered_all, before, self.sent@));
        }
    }

    /// Makes the next send of `identifier` a whole value again: for the one
    /// peer of a specific target, if it is connected, and for every peer of
    /// the target `All`. The resource itself is not touched.
    pub fn synchronize_outbound_fully(&mut self, identifier: OutboundIdentifier<C>)
        ensures
            final(self).peers().len() == old(self).peers().len(),
            forall|j: int|
                #![trigger final(self).peers()[j]]
                0 <= j < old(self).peers().len() ==> {
                    let before = old(self).peers()[j];
                    let after = final(self).peers()[j];
                    &&& after.0 == before.0
                    &&& after.1 == if covers(identifier.key().1, before.0) {
                        without(before.1, identifier.key())
                    } else {
                        before.1
                    }
                },
            final(self).node == old(self).node,
            final(self).sent == old(self).sent,
    {
        proof {
            use_type_invariant(&self.connections);
            self.connections.lemma_well_formed();
        }
        let ghost before = self.peers();
        match &identifier.1 {
            Target::Specific(peer) => {
                proof {
                    lemma_viewed(self.connections@, peer.key());
                }
                match self.connections.position(peer) {
                    Some(index) => {
                        self.forget(index, &identifier);
                        proof {
                            lemma_index_of(before, index as int);
                            assert forall|j: int| 0 <= j < before.len() && j != index implies (
                            #[trigger] before[j]).0 != peer.key() by {
                                if j < index {
                                    assert(before[j].0 != before[index as int].0);
                                } else {
                                    assert(before[index as int].0 != before[j].0);
                                }
                            }
                        }
                    },
                    None => {},
                }
            },
            Target::All => {
                let n: usize = self.connections.len();
                let mut j: usize = 0;
                while j < n
                    invariant
                        j <= n,
                        n == before.len(),
                        self.peers().len() == n,
                        identifier.1 is All,
                        self.node == old(self).node,
                        self.sent == old(self).sent,
                        forall|k: int|
                            #![trigger self.peers()[k]]
                            0 <= k < n ==> {
                                &&& self.peers()[k].0 == before[k].0
                                &&& self.peers()[k].1 == if k < j {
                                    without(before[k].1, identifier.key())
                                } else {
                                    before[k].1
                                }
                            },
                    decreases n - j,
                {
                    self.forget(j, &identifier);
                    j = j + 1;
                }
            },
        }
    }
}

impl<S: SynchronizeOutbound<C>, C: Identifier, T: Diffable> Deref for Server<S, C, T> {
    type Target = Node<
        S,
        InboundIdentifier<C>,
        OutboundIdentifier<C>,
        HashMapResources<InboundIdentifier<C>, OutboundIdentifier<C>, T>,
    >;

    fn deref(&self) -> (node: &Self::Target)
        ensures
            *node == self.node,
    {
        &self.node
    }
}

} // verus!
