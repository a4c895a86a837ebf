//! What a pass of the server over its outbound resources does: who is told
//! what, and what is recorded of it.

use crate::resources::{encodes, next_generation, offers, Diffable, OutboundResource};
use crate::server::OutboundIdentifier;
use crate::table::{
    distinct_keys, has_key, index_of, lemma_index_of, lemma_lookup_without, lookup, without, Table,
};
use crate::wire::{message, Payload};
use crate::Target;
use vstd::prelude::*;

verus! {

/// The key of an outbound identifier: the name and the key of the target.
pub type OutboundKey<K> = (Seq<char>, Target<K>);

/// For each outbound resource that a peer has a baseline of, the generation
/// that was last sent to it.
pub type Generations<C> = Table<OutboundIdentifier<C>, usize>;

/// The connected peers in the order in which they connected, each with the
/// entries of its generation table.
pub type Peers<K> = Seq<(K, Seq<(OutboundKey<K>, usize)>)>;

/// Whether a resource with this target goes to this peer.
pub open spec fn covers<K>(target: Target<K>, peer: K) -> bool {
    match target {
        Target::Specific(only) => only == peer,
        Target::All => true,
    }
}

/// What one resource offered in a pass: what it offers where it is forced
/// to send its whole value, and what it offers where it is not.
pub struct Offer {
    pub forced: Option<Payload>,
    pub unforced: Option<Payload>,
}

/// The offer for a peer with these generations: the forced one where the
/// peer has no baseline of the resource, else the unforced one.
pub open spec fn chosen<K>(
    generations: Seq<(OutboundKey<K>, usize)>,
    key: OutboundKey<K>,
    offer: Offer,
) -> Option<Payload> {
    if lookup(generations, key) is None {
        offer.forced
    } else {
        offer.unforced
    }
}

/// What is handed over for one peer: the message of the chosen offer, if
/// there is one.
pub open spec fn told<K>(
    peer: (K, Seq<(OutboundKey<K>, usize)>),
    key: OutboundKey<K>,
    offer: Offer,
) -> Seq<(K, Seq<u8>)> {
    match chosen(peer.1, key, offer) {
        Some(payload) => seq![(peer.0, message(key.0, payload))],
        None => Seq::empty(),
    }
}

/// What is handed over for the first `count` peers, in their order.
pub open spec fn fanned<K>(peers: Peers<K>, key: OutboundKey<K>, offer: Offer, count: int) -> Seq<
    (K, Seq<u8>),
>
    decreases count,
{
    if count <= 0 {
        Seq::empty()
    } else {
        fanned(peers, key, offer, count - 1) + told(peers[count - 1], key, offer)
    }
}

/// Whether a resource with this target has anyone to go to: a specific
/// peer must be connected.
pub open spec fn reaches<K>(peers: Peers<K>, target: Target<K>) -> bool {
    match target {
        Target::Specific(peer) => has_key(peers, peer),
        Target::All => true,
    }
}

/// Whether a pass deals with the resource: it is touched and has someone
/// to go to.
pub open spec fn processed<K, T: Diffable>(
    peers: Peers<K>,
    entry: (OutboundKey<K>, OutboundResource<T>),
) -> bool {
    entry.1.spec_is_dirty() && reaches(peers, entry.0.1)
}

/// What is handed over for one resource: nothing unless the pass deals
/// with it, else what its peer is told, or what all peers are told.
pub open spec fn announced<K, T: Diffable>(
    peers: Peers<K>,
    entry: (OutboundKey<K>, OutboundResource<T>),
    offer: Offer,
) -> Seq<(K, Seq<u8>)> {
    if !processed(peers, entry) {
        Seq::empty()
    } else {
        match entry.0.1 {
            Target::Specific(peer) => told((peer, lookup(peers, peer).unwrap()), entry.0, offer),
            Target::All => fanned(peers, entry.0, offer, peers.len() as int),
        }
    }
}

/// What is handed over for the first `count` resources, in their order.
pub open spec fn dispatched<K, T: Diffable>(
    peers: Peers<K>,
    entries: Seq<(OutboundKey<K>, OutboundResource<T>)>,
    offered: Seq<Offer>,
    count: int,
) -> Seq<(K, Seq<u8>)>
    decreases count,
{
    if count <= 0 {
        Seq::empty()
    } else {
        dispatched(peers, entries, offered, count - 1) + announced(
            peers,
            entries[count - 1],
            offered[count - 1],
        )
    }
}

/// `offer` is what the resource may offer in a pass. For a specific peer
/// the resource is asked once, forced exactly where the peer has no
/// baseline of it. For all peers it is asked twice, forced and unforced.
pub open spec fn offered<K, T: Diffable>(
    peers: Peers<K>,
    entry: (OutboundKey<K>, OutboundResource<T>),
    offer: Offer,
) -> bool {
    match entry.0.1 {
        Target::Specific(peer) => {
            let generations = lookup(peers, peer).unwrap();
            offers(
                entry.1,
                lookup(generations, entry.0) is None,
                chosen(generations, entry.0, offer),
            )
        },
        Target::All => offers(entry.1, true, offer.forced) && offers(
            entry.1,
            false,
            offer.unforced,
        ),
    }
}

/// The generation that a peer has of the resource under `key` after a pass
/// over the first `count` of `entries`: the new one where the pass dealt
/// with the resource and the resource goes to the peer, else the one that
/// the peer had.
pub open spec fn recorded<K, T: Diffable>(
    entries: Seq<(OutboundKey<K>, OutboundResource<T>)>,
    count: int,
    peer: (K, Seq<(OutboundKey<K>, usize)>),
    key: OutboundKey<K>,
) -> Option<usize> {
    if has_key(entries, key) && index_of(entries, key) < count && entries[index_of(
        entries,
        key,
    )].1.spec_is_dirty() && covers(key.1, peer.0) {
        Some(next_generation(entries[index_of(entries, key)].1.spec_generation()) as usize)
    } else {
        lookup(peer.1, key)
    }
}

/// `after` is `before` with `generation` noted under `key`: that is what is
/// found under `key`, and under every other key what was found before.
pub open spec fn noted<K>(
    before: Seq<(OutboundKey<K>, usize)>,
    after: Seq<(OutboundKey<K>, usize)>,
    key: OutboundKey<K>,
    generation: usize,
) -> bool {
    forall|other: OutboundKey<K>| #[trigger]
        lookup(after, other) == if other == key {
            Some(generation)
        } else {
            lookup(before, other)
        }
}

/// A pass over `entries` with the peers `peers`, in which the resources
/// offered `offered`, took the record of what was sent from `before` to
/// `after`.
pub open spec fn relayed<K, T: Diffable>(
    peers: Peers<K>,
    entries: Seq<(OutboundKey<K>, OutboundResource<T>)>,
    offered_all: Seq<Offer>,
    before: Seq<(K, Seq<u8>)>,
    after: Seq<(K, Seq<u8>)>,
) -> bool {
    &&& offered_all.len() == entries.len()
    &&& forall|i: int|
        0 <= i < entries.len() && processed(peers, #[trigger] entries[i]) ==> offered(
            peers,
            entries[i],
            offered_all[i],
        )
    &&& after == before + dispatched(peers, entries, offered_all, entries.len() as int)
}

/// Two sets of peers that agree on who is connected and on who has a
/// baseline of a resource are told the same about it.
pub proof fn lemma_fanned_agrees<K>(
    first: Peers<K>,
    second: Peers<K>,
    key: OutboundKey<K>,
    offer: Offer,
    count: int,
)
    requires
        first.len() == second.len(),
        count <= first.len(),
        forall|j: int|
            0 <= j < first.len() ==> (#[trigger] first[j]).0 == second[j].0 && (lookup(
                first[j].1,
                key,
            ) is None <==> lookup(second[j].1, key) is None),
    ensures
        fanned(first, key, offer, count) == fanned(second, key, offer, count),
    decreases count,
{
    if count > 0 {
        lemma_fanned_agrees(first, second, key, offer, count - 1);
        assert(first[count - 1].0 == second[count - 1].0);
    }
}

/// What a pass does with a resource depends on the peers only through who
/// is connected and who has a baseline of that resource.
pub proof fn lemma_same_baselines<K, T: Diffable>(
    first: Peers<K>,
    second: Peers<K>,
    entry: (OutboundKey<K>, OutboundResource<T>),
    offer: Offer,
)
    requires
        first.len() == second.len(),
        distinct_keys(first),
        forall|j: int|
            0 <= j < first.len() ==> (#[trigger] first[j]).0 == second[j].0 && (lookup(
                first[j].1,
                entry.0,
            ) is None <==> lookup(second[j].1, entry.0) is None),
    ensures
        processed(first, entry) == processed(second, entry),
        announced(first, entry, offer) == announced(second, entry, offer),
        offered(first, entry, offer) == offered(second, entry, offer),
{
    assert forall|a: int, b: int| 0 <= a < b < second.len() implies (#[trigger] second[a]).0 != (
    #[trigger] second[b]).0 by {
        assert(first[a].0 == second[a].0);
        assert(first[b].0 == second[b].0);
        assert(first[a].0 != first[b].0);
    }
    match entry.0.1 {
        Target::Specific(peer) => {
            if has_key(first, peer) {
                let j = index_of(first, peer);
                assert(second[j].0 == peer);
                lemma_index_of(first, j);
                lemma_index_of(second, j);
            } else if has_key(second, peer) {
                let j = index_of(second, peer);
                assert(first[j].0 == peer);
            }
        },
        Target::All => {
            lemma_fanned_agrees(first, second, entry.0, offer, first.len() as int);
        },
    }
}

/// What a pass hands over for its first resources does not depend on what
/// later resources offer.
pub proof fn lemma_dispatched_prefix<K, T: Diffable>(
    peers: Peers<K>,
    entries: Seq<(OutboundKey<K>, OutboundResource<T>)>,
    offered_all: Seq<Offer>,
    more: Seq<Offer>,
    count: int,
)
    requires
        count <= offered_all.len() <= more.len(),
        forall|i: int| 0 <= i < offered_all.len() ==> offered_all[i] == more[i],
    ensures
        dispatched(peers, entries, offered_all, count) == dispatched(peers, entries, more, count),
    decreases count,
{
    if count > 0 {
        lemma_dispatched_prefix(peers, entries, offered_all, more, count - 1);
    }
}

/// What the first peers are told goes to them and to nobody else.
pub proof fn lemma_fanned_to_connected<K>(
    peers: Peers<K>,
    key: OutboundKey<K>,
    offer: Offer,
    count: int,
    at: int,
)
    requires
        count <= peers.len(),
        0 <= at < fanned(peers, key, offer, count).len(),
    ensures
        has_key(peers, fanned(peers, key, offer, count)[at].0),
    decreases count,
{
    if count > 0 {
        let rest = fanned(peers, key, offer, count - 1);
        if at < rest.len() {
            lemma_fanned_to_connected(peers, key, offer, count - 1, at);
        } else {
            assert(peers[count - 1].0 == fanned(peers, key, offer, count)[at].0);
        }
    }
}

/// Whatever a pass hands over is for a connected peer.
pub proof fn lemma_dispatched_to_connected<K, T: Diffable>(
    peers: Peers<K>,
    entries: Seq<(OutboundKey<K>, OutboundResource<T>)>,
    offered_all: Seq<Offer>,
    count: int,
    at: int,
)
    requires
        0 <= at < dispatched(peers, entries, offered_all, count).len(),
    ensures
        has_key(peers, dispatched(peers, entries, offered_all, count)[at].0),
    decreases count,
{
    if count > 0 {
        let rest = dispatched(peers, entries, offered_all, count - 1);
        if at < rest.len() {
            lemma_dispatched_to_connected(peers, entries, offered_all, count - 1, at);
        } else {
            let entry = entries[count - 1];
            let offer = offered_all[count - 1];
            let last = announced(peers, entry, offer);
            assert(dispatched(peers, entries, offered_all, count)[at] == last[at - rest.len()]);
            match entry.0.1 {
                Target::Specific(peer) => {},
                Target::All => {
                    lemma_fanned_to_connected(
                        peers,
                        entry.0,
                        offer,
                        peers.len() as int,
                        at - rest.len(),
                    );
                },
            }
        }
    }
}

/// After a peer was removed nothing is recorded for it, and no pass hands
/// anything over for it, whatever is registered and whatever is offered.
pub proof fn lemma_removed_peer_is_left_alone<K, T: Diffable>(
    peers: Peers<K>,
    peer: K,
    entries: Seq<(OutboundKey<K>, OutboundResource<T>)>,
    offered_all: Seq<Offer>,
    at: int,
)
    requires
        distinct_keys(peers),
        0 <= at < dispatched(
            without(peers, peer),
            entries,
            offered_all,
            entries.len() as int,
        ).len(),
    ensures
        !has_key(without(peers, peer), peer),
        lookup(without(peers, peer), peer) is None,
        dispatched(without(peers, peer), entries, offered_all, entries.len() as int)[at].0 != peer,
{
    lemma_lookup_without(peers, peer, peer);
    lemma_dispatched_to_connected(
        without(peers, peer),
        entries,
        offered_all,
        entries.len() as int,
        at,
    );
}

/// A touched resource for one connected peer that has no baseline of it is
/// sent to that peer as a whole value, whatever the other peers have
/// baselines of.
pub proof fn lemma_first_send_to_a_peer_is_full<K, T: Diffable>(
    peers: Peers<K>,
    peer: K,
    entry: (OutboundKey<K>, OutboundResource<T>),
    offer: Offer,
)
    requires
        entry.0.1 == Target::Specific(peer),
        entry.1.spec_is_dirty(),
        has_key(peers, peer),
        lookup(lookup(peers, peer).unwrap(), entry.0) is None,
        offered(peers, entry, offer),
    ensures
        offer.forced matches Some(payload) && !payload.is_diff() && encodes(
            entry.1.value(),
            payload.content(),
        ) && announced(peers, entry, offer) == seq![(peer, message(entry.0.0, payload))],
{
}

/// After a pass every peer has a baseline of each resource that the pass
/// dealt with and that goes to the peer.
pub proof fn lemma_pass_leaves_baselines<K, T: Diffable>(
    peers: Peers<K>,
    entries: Seq<(OutboundKey<K>, OutboundResource<T>)>,
    at: int,
    peer: int,
)
    requires
        distinct_keys(entries),
        0 <= at < entries.len(),
        0 <= peer < peers.len(),
        processed(peers, entries[at]),
        covers(entries[at].0.1, peers[peer].0),
    ensures
        recorded(entries, entries.len() as int, peers[peer], entries[at].0) == Some(
            next_generation(entries[at].1.spec_generation()) as usize,
        ),
{
    lemma_index_of(entries, at);
}

/// A peer whose record of a resource was taken out is told the forced offer
/// of that resource, which is its whole value.
pub proof fn lemma_forgotten_baseline_forces<K, T: Diffable>(
    peer: (K, Seq<(OutboundKey<K>, usize)>),
    entry: (OutboundKey<K>, OutboundResource<T>),
    offer: Offer,
)
    requires
        distinct_keys(peer.1),
        offers(entry.1, true, offer.forced),
    ensures
        offer.forced matches Some(payload) && !payload.is_diff() && encodes(
            entry.1.value(),
            payload.content(),
        ) && told((peer.0, without(peer.1, entry.0)), entry.0, offer) == seq![
            (peer.0, message(entry.0.0, payload)),
        ],
{
    lemma_lookup_without(peer.1, entry.0, entry.0);
}

} // verus!
