use rayzo::client::Client;
use rayzo::resources::{ApplyError, Delivery, Diffable, Resources};
use rayzo::wire::{Payload, ResourcePacket};
use rayzo::SynchronizeOutbound;

/// A score whose whole value takes four bytes and whose small changes take
/// one.
#[derive(Debug, Clone, Copy, PartialEq)]
struct Score(i32);

impl Diffable for Score {
    fn encode(&self) -> Vec<u8> {
        self.0.to_le_bytes().to_vec()
    }

    fn decode(&self, bytes: &Vec<u8>) -> Option<Self> {
        let bytes: [u8; 4] = bytes.as_slice().try_into().ok()?;
        Some(Score(i32::from_le_bytes(bytes)))
    }

    fn diff(&self, newer: &Self) -> Option<Vec<u8>> {
        if self.0 == newer.0 {
            return None;
        }
        match i8::try_from(newer.0.wrapping_sub(self.0)) {
            Ok(step) => Some(vec![step as u8]),
            Err(_) => Some(vec![0x80, 0, 0, 0, 0]),
        }
    }

    fn patch(&self, changes: &Vec<u8>) -> Option<Self> {
        if changes.len() == 1 && changes[0] != 0x80 {
            Some(Score(self.0.wrapping_add((changes[0] as i8) as i32)))
        } else {
            None
        }
    }
}

struct Recorder {
    log: Vec<(u16, Vec<u8>)>,
}

impl SynchronizeOutbound<u16> for Recorder {
    fn synchronize(&mut self, bound: u16, data: Vec<u8>) {
        self.log.push((bound, data));
    }
}

fn client() -> Client<Recorder, u16, Score> {
    Client::new(Recorder { log: Vec::new() }, 9000)
}

fn open(message: &Vec<u8>) -> (String, Payload) {
    let packet = ResourcePacket::decode(message).unwrap();
    (packet.identifier, Payload::decode(&packet.data).unwrap())
}

fn envelope(name: &str, payload: &Payload) -> Vec<u8> {
    ResourcePacket::carrying(name.to_string(), payload).encode()
}

#[test]
fn new_client_holds_nothing() {
    let client = client();
    assert_eq!(client.server, 9000);
    assert_eq!(client.node.resources.outbound_resources.len(), 0);
    assert_eq!(client.node.resources.inbound_resources.len(), 0);
    assert!(client.node.node.log.is_empty());
}

#[test]
fn untouched_resources_are_not_sent() {
    let mut client = client();
    client.deref_mut().resources_mut().register_outbound("score".to_string(), Score(1));
    client.synchronize_outbound();
    assert!(client.node.node.log.is_empty());
    let resource = client.resources().outbound("score".to_string()).unwrap();
    assert_eq!(resource.generation(), None);
}

#[test]
fn first_send_is_full_and_later_sends_are_diffs() {
    let mut client = client();
    client.deref_mut().resources_mut().register_outbound("score".to_string(), Score(0));
    *client.deref_mut().resources_mut().outbound_mut("score".to_string()).unwrap().deref_mut() = Score(10);
    client.synchronize_outbound();
    assert_eq!(client.node.node.log.len(), 1);
    assert_eq!(client.node.node.log[0].0, 9000);
    let (name, payload) = open(&client.node.node.log[0].1);
    assert_eq!(name, "score");
    assert!(matches!(payload, Payload::Full(bytes) if bytes == Score(10).encode()));
    {
        let resource = client.resources().outbound("score".to_string()).unwrap();
        assert!(!resource.is_dirty());
        assert_eq!(resource.generation(), Some(0));
    }
    *client.deref_mut().resources_mut().outbound_mut("score".to_string()).unwrap().deref_mut() = Score(11);
    client.synchronize_outbound();
    assert_eq!(client.node.node.log.len(), 2);
    let (_, payload) = open(&client.node.node.log[1].1);
    assert!(matches!(payload, Payload::Diff(bytes) if bytes == vec![1]));
    let resource = client.resources().outbound("score".to_string()).unwrap();
    assert!(!resource.is_dirty());
    assert_eq!(resource.generation(), Some(1));
}

#[test]
fn touched_but_unchanged_resource_is_settled_without_a_send() {
    let mut client = client();
    client.deref_mut().resources_mut().register_outbound("score".to_string(), Score(5));
    let _ = client.deref_mut().resources_mut().outbound_mut("score".to_string()).unwrap().deref_mut();
    client.synchronize_outbound();
    assert_eq!(client.node.node.log.len(), 1);
    let _ = client.deref_mut().resources_mut().outbound_mut("score".to_string()).unwrap().deref_mut();
    client.synchronize_outbound();
    assert_eq!(client.node.node.log.len(), 1);
    let resource = client.resources().outbound("score".to_string()).unwrap();
    assert!(!resource.is_dirty());
    assert_eq!(resource.generation(), Some(1));
}

#[test]
fn resources_are_sent_in_the_order_of_the_registry() {
    let mut client = client();
    client.deref_mut().resources_mut().register_outbound("b".to_string(), Score(1));
    client.deref_mut().resources_mut().register_outbound("a".to_string(), Score(2));
    client.deref_mut().resources_mut().register_outbound("c".to_string(), Score(3));
    let _ = client.deref_mut().resources_mut().outbound_mut("a".to_string()).unwrap().deref_mut();
    let _ = client.deref_mut().resources_mut().outbound_mut("b".to_string()).unwrap().deref_mut();
    client.synchronize_outbound();
    let log = &client.node.node.log;
    assert_eq!(log.len(), 2);
    assert_eq!(log[0], (9000, envelope("b", &Payload::Full(Score(1).encode()))));
    assert_eq!(log[1], (9000, envelope("a", &Payload::Full(Score(2).encode()))));
}

#[test]
fn large_change_is_sent_as_the_whole_value() {
    let mut client = client();
    client.deref_mut().resources_mut().register_outbound("score".to_string(), Score(0));
    let _ = client.deref_mut().resources_mut().outbound_mut("score".to_string()).unwrap().deref_mut();
    client.synchronize_outbound();
    *client.deref_mut().resources_mut().outbound_mut("score".to_string()).unwrap().deref_mut() =
        Score(100_000);
    client.synchronize_outbound();
    let (_, payload) = open(&client.node.node.log[1].1);
    assert!(matches!(payload, Payload::Full(bytes) if bytes == Score(100_000).encode()));
}

#[test]
fn inbound_message_is_applied_to_the_named_resource() {
    let mut client = client();
    client.deref_mut().resources_mut().register_inbound("score".to_string(), Score(0));
    client.deref_mut().resources_mut().register_inbound("other".to_string(), Score(0));
    let full = envelope("score", &Payload::Full(Score(10).encode()));
    assert_eq!(client.synchronize_inbound(full), Delivery::Applied);
    let diff = envelope("score", &Payload::Diff(vec![1]));
    assert_eq!(client.synchronize_inbound(diff), Delivery::Applied);
    assert_eq!(**client.resources().inbound("score".to_string()).unwrap(), Score(11));
    assert_eq!(**client.resources().inbound("other".to_string()).unwrap(), Score(0));
}

#[test]
fn inbound_message_for_an_unknown_identifier_is_dropped() {
    let mut client = client();
    client.deref_mut().resources_mut().register_inbound("score".to_string(), Score(3));
    let message = envelope("lives", &Payload::Full(Score(10).encode()));
    assert_eq!(client.synchronize_inbound(message), Delivery::UnknownIdentifier);
    assert_eq!(**client.resources().inbound("score".to_string()).unwrap(), Score(3));
}

#[test]
fn malformed_inbound_messages_are_dropped() {
    let mut client = client();
    client.deref_mut().resources_mut().register_inbound("score".to_string(), Score(3));
    assert_eq!(client.synchronize_inbound(vec![1, 2, 3]), Delivery::MalformedEnvelope);
    let no_payload = ResourcePacket { identifier: "score".to_string(), data: vec![0xc1] }.encode();
    assert_eq!(
        client.synchronize_inbound(no_payload),
        Delivery::Refused(ApplyError::MalformedPayload)
    );
    let no_value = envelope("score", &Payload::Full(vec![1, 2]));
    assert_eq!(client.synchronize_inbound(no_value), Delivery::Refused(ApplyError::MalformedValue));
    let no_diff = envelope("score", &Payload::Diff(vec![1, 2]));
    assert_eq!(client.synchronize_inbound(no_diff), Delivery::Refused(ApplyError::DiffRejected));
    assert_eq!(**client.resources().inbound("score".to_string()).unwrap(), Score(3));
}

#[test]
fn client_and_node_give_access_to_the_transport() {
    let mut client = client();
    client.node.deref_mut().log.push((1, vec![2]));
    assert_eq!(client.node.log.len(), 1);
    assert_eq!(client.log[0], (1, vec![2]));
}
