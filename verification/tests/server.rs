use rayzo::resources::{Delivery, Diffable, Resources};
use rayzo::server::{InboundIdentifier, OutboundIdentifier, Server};
use rayzo::table::Identifier;
use rayzo::wire::{Payload, ResourcePacket};
use rayzo::{SynchronizeOutbound, Target};

/// A score whose whole value takes four bytes and whose small changes take
/// one.
#[derive(Debug, Clone, Copy, PartialEq)]
struct Score(i32);

impl Diffable for Score {
    fn encode(&self) -> Vec<u8> {
        self.0.to_le_bytes().to_vec()
    }

    fn decode(&self, bytes: &Vec<u8>) -> Option<Self> {
        let bytes: [u8; 4] = bytes.as_slice().try_into().ok()?;
        Some(Score(i32::from_le_bytes(bytes)))
    }

    fn diff(&self, newer: &Self) -> Option<Vec<u8>> {
        if self.0 == newer.0 {
            return None;
        }
        match i8::try_from(newer.0.wrapping_sub(self.0)) {
            Ok(step) => Some(vec![step as u8]),
            Err(_) => Some(vec![0x80, 0, 0, 0, 0]),
        }
    }

    fn patch(&self, changes: &Vec<u8>) -> Option<Self> {
        if changes.len() == 1 && changes[0] != 0x80 {
            Some(Score(self.0.wrapping_add((changes[0] as i8) as i32)))
        } else {
            None
        }
    }
}

#[derive(Debug, Clone, Copy, PartialEq)]
struct Peer(u32);

impl Identifier for Peer {
    type Key = u32;

    fn key(&self) -> u32 {
        self.0
    }

    fn same_as(&self, other: &Self) -> bool {
        self.0 == other.0
    }

    fn duplicate(&self) -> Self {
        *self
    }
}

struct Recorder {
    log: Vec<(Peer, Vec<u8>)>,
}

impl SynchronizeOutbound<Peer> for Recorder {
    fn synchronize(&mut self, bound: Peer, data: Vec<u8>) {
        self.log.push((bound, data));
    }
}

const A: Peer = Peer(1);
const B: Peer = Peer(2);

fn server() -> Server<Recorder, Peer, Score> {
    Server::new(Recorder { log: Vec::new() })
}

fn all(name: &str) -> OutboundIdentifier<Peer> {
    OutboundIdentifier(name.to_string(), Target::All)
}

fn only(name: &str, peer: Peer) -> OutboundIdentifier<Peer> {
    OutboundIdentifier(name.to_string(), Target::Specific(peer))
}

fn set(server: &mut Server<Recorder, Peer, Score>, identifier: OutboundIdentifier<Peer>, value: i32) {
    *server.deref_mut().resources_mut().outbound_mut(identifier).unwrap().deref_mut() = Score(value);
}

fn open(message: &Vec<u8>) -> (String, Payload) {
    let packet = ResourcePacket::decode(message).unwrap();
    (packet.identifier, Payload::decode(&packet.data).unwrap())
}

fn envelope(name: &str, payload: &Payload) -> Vec<u8> {
    ResourcePacket::carrying(name.to_string(), payload).encode()
}

fn generation(
    server: &Server<Recorder, Peer, Score>,
    peer: Peer,
    identifier: &OutboundIdentifier<Peer>,
) -> Option<usize> {
    server.connections.get(&peer).and_then(|generations| generations.get(identifier)).copied()
}

/// The score that a peer holds after it took in all that was sent to it.
fn replay(log: &Vec<(Peer, Vec<u8>)>, peer: Peer, start: i32) -> i32 {
    let mut value = Score(start);
    for (to, message) in log {
        if *to == peer {
            value = match open(message).1 {
                Payload::Full(bytes) => Score(0).decode(&bytes).unwrap(),
                Payload::Diff(bytes) => value.patch(&bytes).unwrap(),
            };
        }
    }
    value.0
}

#[test]
fn new_server_has_no_peers() {
    let server = server();
    assert!(!server.is_connected(A));
    assert_eq!(server.connections.len(), 0);
    assert_eq!(server.node.resources.outbound_resources.len(), 0);
}

#[test]
fn connections_come_and_go() {
    let mut server = server();
    server.register_connection(A);
    server.register_connection(B);
    assert!(server.is_connected(A));
    assert!(server.is_connected(B));
    assert!(!server.is_connected(Peer(3)));
    server.remove_connection(A);
    assert!(!server.is_connected(A));
    assert!(server.is_connected(B));
    server.remove_connection(A);
    assert_eq!(server.connections.len(), 1);
}

#[test]
fn end_to_end_scenario() {
    let mut server = server();
    server.register_connection(A);
    server.register_connection(B);
    server.deref_mut().resources_mut().register_outbound(all("score"), Score(0));
    assert_eq!(generation(&server, A, &all("score")), None);
    assert_eq!(generation(&server, B, &all("score")), None);

    set(&mut server, all("score"), 10);
    server.synchronize_outbound();
    assert_eq!(server.node.node.log.len(), 2);
    for (index, peer) in [A, B].into_iter().enumerate() {
        assert_eq!(server.node.node.log[index].0, peer);
        let (name, payload) = open(&server.node.node.log[index].1);
        assert_eq!(name, "score");
        assert!(matches!(payload, Payload::Full(bytes) if Score(0).decode(&bytes) == Some(Score(10))));
        assert_eq!(generation(&server, peer, &all("score")), Some(0));
    }

    set(&mut server, all("score"), 11);
    server.synchronize_outbound();
    assert_eq!(server.node.node.log.len(), 4);
    for (index, peer) in [A, B].into_iter().enumerate() {
        assert_eq!(server.node.node.log[2 + index].0, peer);
        let (_, payload) = open(&server.node.node.log[2 + index].1);
        assert!(matches!(payload, Payload::Diff(bytes) if Score(10).patch(&bytes) == Some(Score(11))));
        assert_eq!(generation(&server, peer, &all("score")), Some(1));
    }
    let resource = server.resources().outbound(all("score")).unwrap();
    assert!(!resource.is_dirty());
    assert_eq!(resource.generation(), Some(1));
}

#[test]
fn forced_resync_scenario() {
    let mut server = server();
    server.register_connection(A);
    server.register_connection(B);
    server.deref_mut().resources_mut().register_outbound(all("score"), Score(0));
    set(&mut server, all("score"), 10);
    server.synchronize_outbound();
    set(&mut server, all("score"), 11);
    server.synchronize_outbound();

    server.synchronize_outbound_fully(all("score"));
    assert_eq!(generation(&server, A, &all("score")), None);
    assert_eq!(generation(&server, B, &all("score")), None);
    {
        let resource = server.resources().outbound(all("score")).unwrap();
        assert!(!resource.is_dirty());
        assert_eq!(resource.generation(), Some(1));
    }
    set(&mut server, all("score"), 12);
    server.synchronize_outbound();
    assert_eq!(server.node.node.log.len(), 6);
    for (index, peer) in [A, B].into_iter().enumerate() {
        assert_eq!(server.node.node.log[4 + index].0, peer);
        let (_, payload) = open(&server.node.node.log[4 + index].1);
        assert!(matches!(payload, Payload::Full(bytes) if Score(0).decode(&bytes) == Some(Score(12))));
        assert_eq!(generation(&server, peer, &all("score")), Some(2));
    }
}

#[test]
fn baselines_of_specific_peers_are_independent() {
    let mut server = server();
    server.register_connection(A);
    server.register_connection(B);
    server.deref_mut().resources_mut().register_outbound(only("score", A), Score(0));
    server.deref_mut().resources_mut().register_outbound(only("score", B), Score(0));
    set(&mut server, only("score", A), 1);
    server.synchronize_outbound();
    assert_eq!(server.node.node.log.len(), 1);
    assert_eq!(server.node.node.log[0], (A, envelope("score", &Payload::Full(Score(1).encode()))));
    assert_eq!(generation(&server, A, &only("score", A)), Some(0));
    assert_eq!(generation(&server, B, &only("score", B)), None);
    assert_eq!(generation(&server, B, &only("score", A)), None);

    set(&mut server, only("score", A), 2);
    set(&mut server, only("score", B), 2);
    server.synchronize_outbound();
    assert_eq!(server.node.node.log.len(), 3);
    assert_eq!(server.node.node.log[1], (A, envelope("score", &Payload::Diff(vec![1]))));
    assert_eq!(server.node.node.log[2], (B, envelope("score", &Payload::Full(Score(2).encode()))));
    assert_eq!(generation(&server, B, &only("score", B)), Some(0));
}

#[test]
fn late_peer_gets_the_whole_value_while_others_get_the_diff() {
    let mut server = server();
    server.register_connection(A);
    server.deref_mut().resources_mut().register_outbound(all("score"), Score(0));
    set(&mut server, all("score"), 10);
    server.synchronize_outbound();
    server.register_connection(B);
    set(&mut server, all("score"), 13);
    server.synchronize_outbound();
    let log = &server.node.node.log;
    assert_eq!(log.len(), 3);
    assert_eq!(log[1], (A, envelope("score", &Payload::Diff(vec![3]))));
    assert_eq!(log[2], (B, envelope("score", &Payload::Full(Score(13).encode()))));
    assert_eq!(replay(log, A, 0), 13);
    assert_eq!(replay(log, B, 0), 13);
    assert_eq!(generation(&server, A, &all("score")), Some(1));
    assert_eq!(generation(&server, B, &all("score")), Some(1));
}

#[test]
fn unchanged_value_goes_only_to_peers_without_a_baseline() {
    let mut server = server();
    server.register_connection(A);
    server.deref_mut().resources_mut().register_outbound(all("score"), Score(0));
    set(&mut server, all("score"), 10);
    server.synchronize_outbound();
    server.register_connection(B);
    set(&mut server, all("score"), 10);
    server.synchronize_outbound();
    let log = &server.node.node.log;
    assert_eq!(log.len(), 2);
    assert_eq!(log[1], (B, envelope("score", &Payload::Full(Score(10).encode()))));
    assert_eq!(generation(&server, A, &all("score")), Some(1));
    assert_eq!(generation(&server, B, &all("score")), Some(1));
    assert!(!server.resources().outbound(all("score")).unwrap().is_dirty());
}

#[test]
fn removed_connection_leaves_nothing_behind() {
    let mut server = server();
    server.register_connection(A);
    server.register_connection(B);
    server.deref_mut().resources_mut().register_outbound(all("score"), Score(0));
    server.deref_mut().resources_mut().register_outbound(only("lives", A), Score(3));
    set(&mut server, all("score"), 1);
    set(&mut server, only("lives", A), 2);
    server.synchronize_outbound();
    assert_eq!(generation(&server, A, &all("score")), Some(0));
    assert_eq!(generation(&server, A, &only("lives", A)), Some(0));
    let sent_before = server.node.node.log.len();

    server.remove_connection(A);
    assert!(!server.is_connected(A));
    assert!(server.connections.get(&A).is_none());
    assert_eq!(generation(&server, A, &all("score")), None);
    assert_eq!(generation(&server, A, &only("lives", A)), None);

    set(&mut server, all("score"), 2);
    set(&mut server, only("lives", A), 1);
    server.synchronize_outbound();
    let log = &server.node.node.log;
    assert_eq!(log.len(), sent_before + 1);
    assert!(log[sent_before..].iter().all(|(to, _)| *to != A));
    assert_eq!(log[sent_before], (B, envelope("score", &Payload::Diff(vec![1]))));
    let lives = server.resources().outbound(only("lives", A)).unwrap();
    assert!(lives.is_dirty());
    assert_eq!(lives.generation(), Some(0));
}

#[test]
fn reconnected_peer_starts_without_a_baseline() {
    let mut server = server();
    server.register_connection(A);
    server.deref_mut().resources_mut().register_outbound(only("lives", A), Score(3));
    set(&mut server, only("lives", A), 2);
    server.synchronize_outbound();
    server.remove_connection(A);
    server.register_connection(A);
    assert_eq!(generation(&server, A, &only("lives", A)), None);
    set(&mut server, only("lives", A), 1);
    server.synchronize_outbound();
    let log = &server.node.node.log;
    assert_eq!(log[1], (A, envelope("lives", &Payload::Full(Score(1).encode()))));
    assert_eq!(generation(&server, A, &only("lives", A)), Some(1));
}

#[test]
fn registering_a_connected_peer_again_clears_its_baselines() {
    let mut server = server();
    server.register_connection(A);
    server.deref_mut().resources_mut().register_outbound(all("score"), Score(0));
    set(&mut server, all("score"), 1);
    server.synchronize_outbound();
    server.register_connection(A);
    assert_eq!(server.connections.len(), 1);
    assert_eq!(generation(&server, A, &all("score")), None);
}

#[test]
fn forcing_a_specific_target_touches_only_its_peer() {
    let mut server = server();
    server.register_connection(A);
    server.register_connection(B);
    server.deref_mut().resources_mut().register_outbound(only("score", A), Score(0));
    server.deref_mut().resources_mut().register_outbound(only("score", B), Score(0));
    set(&mut server, only("score", A), 1);
    set(&mut server, only("score", B), 1);
    server.synchronize_outbound();
    server.synchronize_outbound_fully(only("score", A));
    assert_eq!(generation(&server, A, &only("score", A)), None);
    assert_eq!(generation(&server, B, &only("score", B)), Some(0));
    server.synchronize_outbound_fully(only("score", Peer(9)));
    assert_eq!(generation(&server, B, &only("score", B)), Some(0));
    assert!(server.node.node.log.len() == 2);
}

#[test]
fn server_without_peers_settles_resources_for_all() {
    let mut server = server();
    server.deref_mut().resources_mut().register_outbound(all("score"), Score(0));
    set(&mut server, all("score"), 1);
    server.synchronize_outbound();
    assert!(server.node.node.log.is_empty());
    let resource = server.resources().outbound(all("score")).unwrap();
    assert!(!resource.is_dirty());
    assert_eq!(resource.generation(), Some(0));
}

#[test]
fn inbound_resources_are_kept_per_peer() {
    let mut server = server();
    server.register_connection(A);
    server.register_connection(B);
    server.deref_mut().resources_mut().register_inbound(InboundIdentifier("score".to_string(), A), Score(0));
    server.deref_mut().resources_mut().register_inbound(InboundIdentifier("score".to_string(), B), Score(0));
    let message = envelope("score", &Payload::Full(Score(7).encode()));
    assert_eq!(server.synchronize_inbound(A, message), Delivery::Applied);
    let of_a = server.resources().inbound(InboundIdentifier("score".to_string(), A)).unwrap();
    let of_b = server.resources().inbound(InboundIdentifier("score".to_string(), B)).unwrap();
    assert_eq!(**of_a, Score(7));
    assert_eq!(**of_b, Score(0));
}

#[test]
fn inbound_messages_that_name_nothing_are_dropped() {
    let mut server = server();
    server.deref_mut().resources_mut().register_inbound(InboundIdentifier("score".to_string(), A), Score(0));
    let message = envelope("score", &Payload::Full(Score(7).encode()));
    assert_eq!(server.synchronize_inbound(B, message), Delivery::UnknownIdentifier);
    assert_eq!(server.synchronize_inbound(A, vec![0, 1]), Delivery::MalformedEnvelope);
    let of_a = server.resources().inbound(InboundIdentifier("score".to_string(), A)).unwrap();
    assert_eq!(**of_a, Score(0));
}
