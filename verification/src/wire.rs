//! What travels between peers: an envelope that names a resource and carries
//! a tagged payload, each in its own encoding.

use vstd::prelude::*;

verus! {

/// The error of `bincode`, carried through untouched.
#[verifier::external_type_specification]
#[verifier::external_body]
pub struct ExEnvelopeErrorKind(bincode::ErrorKind);

/// The decoding error of `rmp_serde`, carried through untouched.
#[verifier::external_type_specification]
#[verifier::external_body]
pub struct ExPayloadError(rmp_serde::decode::Error);

/// The bytes that `bincode::serialize` gives for the pair of an identifier
/// and a payload.
pub uninterp spec fn envelope_bytes(identifier: Seq<char>, payload: Seq<u8>) -> Seq<u8>;

/// The pair of an identifier and a payload that `bincode::deserialize` reads
/// from `bytes`, where it reads one.
pub uninterp spec fn envelope_parse(bytes: Seq<u8>) -> Option<(Seq<char>, Seq<u8>)>;

/// The bytes that `rmp_serde::to_vec` gives for the pair of a tag and a
/// content.
pub uninterp spec fn payload_bytes(diff: bool, content: Seq<u8>) -> Seq<u8>;

/// The pair of a tag and a content that `rmp_serde::from_slice` reads from
/// `bytes`, where it reads one.
pub uninterp spec fn payload_parse(bytes: Seq<u8>) -> Option<(bool, Seq<u8>)>;

/// The bytes that travel for `payload` of the resource named `identifier`.
pub open spec fn message(identifier: Seq<char>, payload: Payload) -> Seq<u8> {
    envelope_bytes(identifier, payload_bytes(payload.is_diff(), payload.content()))
}

/// Calls `bincode::serialize` on the pair `(identifier, payload)`. The
/// result is a function of the two values; with the default configuration,
/// which sets no size limit, the call does not fail on a string and a byte
/// vector.
#[verifier::external_body]
fn bincode_serialize(identifier: &String, payload: &Vec<u8>) -> (bytes: Vec<u8>)
    ensures
        bytes@ == envelope_bytes(identifier@, payload@),
{
    bincode::serialize(&(identifier, payload)).unwrap()
}

/// Calls `bincode::deserialize` for a pair of a string and a byte vector.
/// Whether it reads one, and which, is a function of the bytes.
#[verifier::external_body]
fn bincode_deserialize(bytes: &Vec<u8>) -> (read: Result<(String, Vec<u8>), Box<bincode::ErrorKind>>)
    ensures
        match read {
            Ok(pair) => envelope_parse(bytes@) == Some((pair.0@, pair.1@)),
            Err(_) => envelope_parse(bytes@) is None,
        },
{
    bincode::deserialize::<(String, Vec<u8>)>(bytes.as_slice())
}

/// Calls `rmp_serde::to_vec` on the pair `(diff, content)`. The result is a
/// function of the two values; the call fails only where memory runs out.
#[verifier::external_body]
fn msgpack_to_vec(diff: bool, content: &Vec<u8>) -> (bytes: Vec<u8>)
    ensures
        bytes@ == payload_bytes(diff, content@),
{
    rmp_serde::to_vec(&(diff, content)).unwrap()
}

/// Calls `rmp_serde::from_slice` for a pair of a flag and a byte vector.
/// Whether it reads one, and which, is a function of the bytes.
#[verifier::external_body]
fn msgpack_from_slice(bytes: &Vec<u8>) -> (read: Result<(bool, Vec<u8>), rmp_serde::decode::Error>)
    ensures
        match read {
            Ok(pair) => payload_parse(bytes@) == Some((pair.0, pair.1@)),
            Err(_) => payload_parse(bytes@) is None,
        },
{
    rmp_serde::from_slice::<(bool, Vec<u8>)>(bytes.as_slice())
}

/// An encoded value of a resource, tagged with how to read it.
#[derive(Debug)]
pub enum Payload {
    /// The changes that lead from the receiver's baseline to the value.
    Diff(Vec<u8>),
    /// The whole value.
    Full(Vec<u8>),
}

impl Payload {
    /// Whether the payload holds changes and not a whole value.
    pub open spec fn is_diff(&self) -> bool {
        self is Diff
    }

    /// The bytes under the tag.
    pub open spec fn content(&self) -> Seq<u8> {
        match self {
            Payload::Diff(bytes) => bytes@,
            Payload::Full(bytes) => bytes@,
        }
    }

    /// The payload with the given tag and content.
    pub fn from_parts(diff: bool, content: Vec<u8>) -> (payload: Payload)
        ensures
            payload.is_diff() == diff,
            payload.content() == content@,
    {
        if diff {
            Payload::Diff(content)
        } else {
            Payload::Full(content)
        }
    }

    /// The payload as it travels.
    pub fn encode(&self) -> (bytes: Vec<u8>)
        ensures
            bytes@ == payload_bytes(self.is_diff(), self.content()),
    {
        match self {
            Payload::Diff(content) => msgpack_to_vec(true, content),
            Payload::Full(content) => msgpack_to_vec(false, content),
        }
    }

    /// Reads a payload; `None` where the bytes hold none.
    pub fn decode(bytes: &Vec<u8>) -> (payload: Option<Payload>)
        ensures
            match payload_parse(bytes@) {
                Some((diff, content)) => payload matches Some(read) && read.is_diff() == diff
                    && read.content() == content,
                None => payload is None,
            },
    {
        match msgpack_from_slice(bytes) {
            Ok(pair) => Some(Payload::from_parts(pair.0, pair.1)),
            Err(_) => None,
        }
    }
}

/// The envelope: the name of a resource and its encoded payload.
#[derive(Debug)]
pub struct ResourcePacket {
    pub identifier: String,
    pub data: Vec<u8>,
}

impl ResourcePacket {
    /// The envelope that carries `payload` for the resource named
    /// `identifier`.
    pub fn carrying(identifier: String, payload: &Payload) -> (packet: ResourcePacket)
        ensures
            packet.identifier == identifier,
            packet.data@ == payload_bytes(payload.is_diff(), payload.content()),
    {
        ResourcePacket { identifier, data: payload.encode() }
    }

    /// The envelope as it travels.
    pub fn encode(&self) -> (bytes: Vec<u8>)
        ensures
            bytes@ == envelope_bytes(self.identifier@, self.data@),
    {
        bincode_serialize(&self.identifier, &self.data)
    }

    /// Reads an envelope; `None` where the bytes hold none.
    pub fn decode(bytes: &Vec<u8>) -> (packet: Option<ResourcePacket>)
        ensures
            match envelope_parse(bytes@) {
                Some((identifier, data)) => packet matches Some(read) && read.identifier@
                    == identifier && read.data@ == data,
                None => packet is None,
            },
    {
        match bincode_deserialize(bytes) {
            Ok(pair) => Some(ResourcePacket { identifier: pair.0, data: pair.1 }),
            Err(_) => None,
        }
    }
}

} // verus!
