//! Replicated values and the registry that files them under identifiers.

use crate::table::{lookup, upsert, Identifier, Table};
use crate::wire::Payload;
use core::ops::Deref;
use vstd::prelude::*;

verus! {

/// What a replicated type must be able to do: turn itself into bytes and
/// back, tell what changed between two values, and take such changes in.
/// Nothing is asked of how: the library's contracts speak of whatever these
/// methods return.
pub trait Diffable: Clone + Sized {
    /// The whole value as bytes.
    fn encode(&self) -> Vec<u8>;

    /// The value of the kind of `self` that `bytes` hold; `None` where they
    /// hold none. What `self` holds is not asked for.
    fn decode(&self, bytes: &Vec<u8>) -> Option<Self>;

    /// The changes that lead from `self` to `newer`; `None` where nothing
    /// changed.
    fn diff(&self, newer: &Self) -> Option<Vec<u8>>;

    /// `self` with `changes` taken in; `None` where they do not fit.
    fn patch(&self, changes: &Vec<u8>) -> Option<Self>;
}

/// `bytes` is what `encode` may return for `value`.
pub open spec fn encodes<T: Diffable>(value: T, bytes: Seq<u8>) -> bool {
    exists|encoded: Vec<u8>| #[trigger] call_ensures(T::encode, (&value,), encoded) && encoded@ == bytes
}

/// `value` is what `decode` may return for `bytes` where the receiver holds
/// `current`.
pub open spec fn decodes<T: Diffable>(current: T, bytes: Seq<u8>, value: Option<T>) -> bool {
    exists|given: Vec<u8>| #[trigger]
        call_ensures(T::decode, (&current, &given), value) && given@ == bytes
}

/// The bytes of what `diff` returned.
pub open spec fn changes_of(found: Option<Vec<u8>>) -> Option<Seq<u8>> {
    match found {
        Some(bytes) => Some(bytes@),
        None => None,
    }
}

/// `changes` is what `diff` may return from `baseline` to `value`.
pub open spec fn differs<T: Diffable>(baseline: T, value: T, changes: Option<Seq<u8>>) -> bool {
    exists|found: Option<Vec<u8>>| #[trigger]
        call_ensures(T::diff, (&baseline, &value), found) && changes_of(found) == changes
}

/// `patched` is what `patch` may return for `value` and `changes`.
pub open spec fn patches<T: Diffable>(value: T, changes: Seq<u8>, patched: Option<T>) -> bool {
    exists|given: Vec<u8>| #[trigger]
        call_ensures(T::patch, (&value, &given), patched) && given@ == changes
}

/// Why an inbound resource refused what it was given.
#[derive(Debug, Clone, Copy, PartialEq, Eq, Structural)]
pub enum ApplyError {
    /// The bytes hold no tagged payload.
    MalformedPayload,
    /// The payload is a whole value, and its bytes hold none.
    MalformedValue,
    /// The payload is a set of changes that does not fit the current value.
    DiffRejected,
}

/// A value that a peer pushes to this side.
pub struct InboundResource<T: Diffable> {
    data: T,
}

/// What `payload` may do to an inbound resource that holds `before`: the
/// value afterwards and the outcome. A refused payload leaves the value as
/// it was.
pub open spec fn applies<T: Diffable>(
    before: T,
    payload: Payload,
    after: T,
    outcome: Result<(), ApplyError>,
) -> bool {
    match payload {
        Payload::Full(bytes) => exists|decoded: Option<T>| #[trigger]
            decodes(before, bytes@, decoded) && match decoded {
                Some(value) => outcome is Ok && after == value,
                None => outcome == Err::<(), ApplyError>(ApplyError::MalformedValue) && after
                    == before,
            },
        Payload::Diff(bytes) => exists|patched: Option<T>| #[trigger]
            patches(before, bytes@, patched) && match patched {
                Some(value) => outcome is Ok && after == value,
                None => outcome == Err::<(), ApplyError>(ApplyError::DiffRejected) && after
                    == before,
            },
    }
}

/// What the encoded payload `data` may do to an inbound resource that holds
/// `before`. Bytes that hold no payload are refused; a payload does what
/// `applies` says.
pub open spec fn takes_in<T: Diffable>(
    before: T,
    data: Seq<u8>,
    after: T,
    outcome: Result<(), ApplyError>,
) -> bool {
    match crate::wire::payload_parse(data) {
        None => outcome == Err::<(), ApplyError>(ApplyError::MalformedPayload) && after
            == before,
        Some(parts) => exists|payload: Payload| #[trigger]
            applies(before, payload, after, outcome) && payload.is_diff() == parts.0
                && payload.content() == parts.1,
    }
}

impl<T: Diffable> InboundResource<T> {
    /// The value that the resource holds.
    pub closed spec fn value(&self) -> T {
        self.data
    }

    /// The inbound resource that holds `data`.
    pub closed spec fn holding(data: T) -> InboundResource<T> {
        InboundResource { data }
    }

    /// A resource is what it holds.
    pub proof fn lemma_holding(self)
        ensures
            self == Self::holding(self.value()),
            forall|data: T| #[trigger] Self::holding(data).value() == data,
    {
    }

    pub fn new(data: T) -> (resource: InboundResource<T>)
        ensures
            resource == Self::holding(data),
            resource.value() == data,
    {
        InboundResource { data }
    }

    /// Takes a payload in: a whole value replaces the current one, changes
    /// are applied to it.
    pub fn apply(&mut self, payload: &Payload) -> (outcome: Result<(), ApplyError>)
        ensures
            applies(old(self).value(), *payload, final(self).value(), outcome),
    {
        match payload {
            Payload::Full(bytes) => {
                let decoded = self.data.decode(bytes);
                assert(decodes(old(self).value(), bytes@, decoded));
                match decoded {
                    Some(value) => {
                        self.data = value;
                        Ok(())
                    },
                    None => Err(ApplyError::MalformedValue),
                }
            },
            Payload::Diff(bytes) => {
                let patched = self.data.patch(bytes);
                assert(patches(old(self).value(), bytes@, patched));
                match patched {
                    Some(value) => {
                        self.data = value;
                        Ok(())
                    },
                    None => Err(ApplyError::DiffRejected),
                }
            },
        }
    }

    /// Takes an encoded payload in: see `takes_in`.
    pub fn deserialize(&mut self, data: &Vec<u8>) -> (outcome: Result<(), ApplyError>)
        ensures
            takes_in(old(self).value(), data@, final(self).value(), outcome),
    {
        match Payload::decode(data) {
            Some(payload) => {
                let outcome = self.apply(&payload);
                assert(applies(old(self).value(), payload, self.value(), outcome));
                outcome
            },
            None => Err(ApplyError::MalformedPayload),
        }
    }
}

impl<T: Diffable> Deref for InboundResource<T> {
    type Target = T;

    fn deref(&self) -> (data: &T)
        ensures
            *data == self.value(),
    {
        &self.data
    }
}

/// The last value that was sent, and how many were sent before it.
pub struct Snapshot<T> {
    data: T,
    generation: usize,
}

impl<T> Snapshot<T> {
    fn new(data: T, generation: usize) -> (snapshot: Self)
        ensures
            snapshot.data == data,
            snapshot.generation == generation,
    {
        Snapshot { data, generation }
    }
}

/// A value that this side pushes to its peers.
pub struct OutboundResource<T: Diffable> {
    snapshot: Option<Snapshot<T>>,
    dirty: bool,
    data: T,
}

/// The generation that follows `generation`: the first is 0.
pub open spec fn next_generation(generation: Option<usize>) -> int {
    match generation {
        Some(last) => last + 1,
        None => 0,
    }
}

/// What an outbound resource may offer to send. A forced offer, and the
/// first one, is the whole value. Later ones are nothing where nothing
/// changed since the baseline, else the changes where they are shorter than
/// the whole value, else the whole value.
pub open spec fn offers<T: Diffable>(
    resource: OutboundResource<T>,
    full: bool,
    offer: Option<Payload>,
) -> bool {
    if full || resource.baseline() is None {
        offer matches Some(payload) && !payload.is_diff() && encodes(
            resource.value(),
            payload.content(),
        )
    } else {
        exists|changes: Option<Seq<u8>>| #[trigger]
            differs(resource.baseline().unwrap(), resource.value(), changes) && match changes {
                None => offer is None,
                Some(delta) => offer matches Some(payload) && exists|whole: Seq<u8>| #[trigger]
                    encodes(resource.value(), whole) && payload.is_diff() == (whole.len()
                        > delta.len()) && payload.content() == if whole.len() > delta.len() {
                        delta
                    } else {
                        whole
                    },
            }
    }
}

/// What a resource is after it was synchronized: untouched, with a copy of
/// its value as the baseline under the next generation.
pub open spec fn settled<T: Diffable>(
    before: OutboundResource<T>,
    after: OutboundResource<T>,
) -> bool {
    &&& !after.spec_is_dirty()
    &&& after.value() == before.value()
    &&& after.baseline() matches Some(copy) && cloned(before.value(), copy)
    &&& after.spec_generation() matches Some(generation) && generation == next_generation(
        before.spec_generation(),
    )
}

impl<T: Diffable> OutboundResource<T> {
    /// The value that the resource holds.
    pub closed spec fn value(&self) -> T {
        self.data
    }

    /// The last value that was sent, if any was.
    pub closed spec fn baseline(&self) -> Option<T> {
        match self.snapshot {
            Some(snapshot) => Some(snapshot.data),
            None => None,
        }
    }

    /// Whether the value was touched since it was last sent.
    pub closed spec fn spec_is_dirty(&self) -> bool {
        self.dirty
    }

    /// The number of the baseline, if there is one.
    pub closed spec fn spec_generation(&self) -> Option<usize> {
        match self.snapshot {
            Some(snapshot) => Some(snapshot.generation),
            None => None,
        }
    }

    /// A resource has a generation exactly when it has a baseline.
    pub proof fn lemma_generation_with_baseline(self)
        ensures
            self.spec_generation() is Some <==> self.baseline() is Some,
    {
    }

    /// The outbound resource that holds `data` and was never sent.
    pub closed spec fn holding(data: T) -> OutboundResource<T> {
        OutboundResource { snapshot: None, dirty: false, data }
    }

    /// A resource that was never sent holds its value, has no baseline and
    /// is not touched.
    pub proof fn lemma_holding(data: T)
        ensures
            Self::holding(data).value() == data,
            Self::holding(data).baseline() is None,
            Self::holding(data).spec_generation() is None,
            !Self::holding(data).spec_is_dirty(),
    {
    }

    pub fn new(data: T) -> (resource: OutboundResource<T>)
        ensures
            resource == Self::holding(data),
            resource.value() == data,
            resource.baseline() is None,
            resource.spec_generation() is None,
            !resource.spec_is_dirty(),
    {
        OutboundResource { snapshot: None, dirty: false, data }
    }

    /// Exclusive access to the value. The resource counts as touched from
    /// here on, whatever is done with the access.
    pub fn deref_mut(&mut self) -> (data: &mut T)
        ensures
            *data == old(self).value(),
            final(self).value() == *final(data),
            final(self).spec_is_dirty(),
            final(self).baseline() == old(self).baseline(),
            final(self).spec_generation() == old(self).spec_generation(),
    {
        self.dirty = true;
        &mut self.data
    }

    #[verifier::when_used_as_spec(spec_is_dirty)]
    pub fn is_dirty(&self) -> (dirty: bool)
        ensures
            dirty == self.spec_is_dirty(),
    {
        self.dirty
    }

    pub fn set_dirty(&mut self, dirty: bool)
        ensures
            final(self).spec_is_dirty() == dirty,
            final(self).value() == old(self).value(),
            final(self).baseline() == old(self).baseline(),
            final(self).spec_generation() == old(self).spec_generation(),
    {
        self.dirty = dirty;
    }

    /// Makes a copy of the current value the baseline, under the next
    /// generation.
    pub fn snapshot(&mut self)
        requires
            old(self).spec_generation() != Some(usize::MAX),
        ensures
            final(self).baseline() matches Some(copy) && cloned(old(self).value(), copy),
            final(self).spec_generation() matches Some(generation) && generation
                == next_generation(old(self).spec_generation()),
            final(self).value() == old(self).value(),
            final(self).spec_is_dirty() == old(self).spec_is_dirty(),
    {
        let generation: usize = match &self.snapshot {
            Some(snapshot) => snapshot.generation + 1,
            None => 0,
        };
        self.snapshot = Some(Snapshot::new(self.data.clone(), generation));
    }

    #[verifier::when_used_as_spec(spec_generation)]
    pub fn generation(&self) -> (generation: Option<usize>)
        ensures
            generation == self.spec_generation(),
    {
        match &self.snapshot {
            Some(snapshot) => Some(snapshot.generation),
            None => None,
        }
    }

    /// Decides what to send: see `offers`.
    pub fn payload(&self, full: bool) -> (offer: Option<Payload>)
        ensures
            offers(*self, full, offer),
    {
        match &self.snapshot {
            Some(snapshot) if !full => {
                let found = snapshot.data.diff(&self.data);
                assert(differs(self.baseline().unwrap(), self.value(), changes_of(found)));
                match found {
                    Some(delta) => {
                        let whole = self.data.encode();
                        assert(encodes(self.value(), whole@));
                        if whole.len() > delta.len() {
                            Some(Payload::Diff(delta))
                        } else {
                            Some(Payload::Full(whole))
                        }
                    },
                    None => None,
                }
            },
            _ => {
                let whole = self.data.encode();
                assert(encodes(self.value(), whole@));
                Some(Payload::Full(whole))
            },
        }
    }

    /// What to send, encoded: `None` where there is nothing to send.
    pub fn serialize(&self, full: bool) -> (data: Option<Vec<u8>>)
        ensures
            exists|offer: Option<Payload>| #[trigger]
                offers(*self, full, offer) && match offer {
                    Some(payload) => data matches Some(bytes) && bytes@
                        == crate::wire::payload_bytes(payload.is_diff(), payload.content()),
                    None => data is None,
                },
    {
        let offer = self.payload(full);
        match offer {
            Some(payload) => {
                let bytes = payload.encode();
                assert(offers(*self, full, Some(payload)));
                Some(bytes)
            },
            None => {
                assert(offers(*self, full, None::<Payload>));
                None
            },
        }
    }
}

impl<T: Diffable> Deref for OutboundResource<T> {
    type Target = T;

    fn deref(&self) -> (data: &T)
        ensures
            *data == self.value(),
    {
        &self.data
    }
}

/// A registry of replicated values: inbound ones under identifiers of one
/// kind, outbound ones under identifiers of another.
pub trait Resources<I: Identifier, O: Identifier>: Sized {
    /// The type of the values.
    type Value: Diffable;

    /// The inbound resources in the order in which their identifiers first
    /// came, each under its key.
    spec fn inbound_entries(&self) -> Seq<(I::Key, InboundResource<Self::Value>)>;

    /// The outbound resources in the order in which their identifiers first
    /// came, each under its key.
    spec fn outbound_entries(&self) -> Seq<(O::Key, OutboundResource<Self::Value>)>;

    /// A registry that holds nothing.
    fn new() -> (resources: Self)
        ensures
            resources.inbound_entries().len() == 0,
            resources.outbound_entries().len() == 0,
    ;

    /// Files an inbound resource that holds `resource`, in place of the one
    /// that was filed under `identifier` before.
    fn register_inbound(&mut self, identifier: I, resource: Self::Value)
        ensures
            final(self).inbound_entries() == upsert(
                old(self).inbound_entries(),
                identifier.key(),
                InboundResource::holding(resource),
            ),
            final(self).outbound_entries() == old(self).outbound_entries(),
    ;

    /// Files an outbound resource that holds `resource` and was never sent,
    /// in place of the one that was filed under `identifier` before.
    fn register_outbound(&mut self, identifier: O, resource: Self::Value)
        ensures
            final(self).outbound_entries() == upsert(
                old(self).outbound_entries(),
                identifier.key(),
                OutboundResource::holding(resource),
            ),
            final(self).inbound_entries() == old(self).inbound_entries(),
    ;

    /// The inbound resource filed under `identifier`.
    fn inbound(&self, identifier: I) -> (resource: Option<&InboundResource<Self::Value>>)
        ensures
            match resource {
                Some(found) => lookup(self.inbound_entries(), identifier.key()) == Some(*found),
                None => lookup(self.inbound_entries(), identifier.key()) is None,
            },
    ;

    /// The outbound resource filed under `identifier`.
    fn outbound(&self, identifier: O) -> (resource: Option<&OutboundResource<Self::Value>>)
        ensures
            match resource {
                Some(found) => lookup(self.outbound_entries(), identifier.key()) == Some(*found),
                None => lookup(self.outbound_entries(), identifier.key()) is None,
            },
    ;

    /// Exclusive access to the outbound resource filed under `identifier`.
    /// What is done with the access is what becomes of the resource; nothing
    /// else changes.
    fn outbound_mut(&mut self, identifier: O) -> (resource: Option<
        &mut OutboundResource<Self::Value>,
    >)
        ensures
            final(self).inbound_entries() == old(self).inbound_entries(),
            match resource {
                Some(found) => lookup(old(self).outbound_entries(), identifier.key()) == Some(
                    *found,
                ) && final(self).outbound_entries() == upsert(
                    old(self).outbound_entries(),
                    identifier.key(),
                    *final(found),
                ),
                None => lookup(old(self).outbound_entries(), identifier.key()) is None
                    && final(self).outbound_entries() == old(self).outbound_entries(),
            },
    ;
}

/// The registry that the client and the server use.
pub struct HashMapResources<I: Identifier, O: Identifier, T: Diffable> {
    pub inbound_resources: Table<I, InboundResource<T>>,
    pub outbound_resources: Table<O, OutboundResource<T>>,
}

impl<I: Identifier, O: Identifier, T: Diffable> Default for HashMapResources<I, O, T> {
    fn default() -> (resources: Self)
        ensures
            resources.inbound_resources@.len() == 0,
            resources.outbound_resources@.len() == 0,
    {
        HashMapResources { inbound_resources: Table::new(), outbound_resources: Table::new() }
    }
}

impl<I: Identifier, O: Identifier, T: Diffable> Resources<I, O> for HashMapResources<I, O, T> {
    type Value = T;

    open spec fn inbound_entries(&self) -> Seq<(I::Key, InboundResource<T>)> {
        self.inbound_resources@
    }

    open spec fn outbound_entries(&self) -> Seq<(O::Key, OutboundResource<T>)> {
        self.outbound_resources@
    }

    fn new() -> (resources: Self) {
        HashMapResources { inbound_resources: Table::new(), outbound_resources: Table::new() }
    }

    fn register_inbound(&mut self, identifier: I, resource: T) {
        self.inbound_resources.insert(identifier, InboundResource::new(resource));
    }

    fn register_outbound(&mut self, identifier: O, resource: T) {
        self.outbound_resources.insert(identifier, OutboundResource::new(resource));
    }

    fn inbound(&self, identifier: I) -> (resource: Option<&InboundResource<T>>) {
        self.inbound_resources.get(&identifier)
    }

    fn outbound(&self, identifier: O) -> (resource: Option<&OutboundResource<T>>) {
        self.outbound_resources.get(&identifier)
    }

    fn outbound_mut(&mut self, identifier: O) -> (resource: Option<&mut OutboundResource<T>>) {
        proof {
            use_type_invariant(&self.outbound_resources);
            self.outbound_resources.lemma_well_formed();
        }
        self.outbound_resources.get_mut(&identifier)
    }
}

/// What became of a message that a peer sent.
#[derive(Debug, Clone, Copy, PartialEq, Eq, Structural)]
pub enum Delivery {
    /// The payload was taken in by the resource that it names.
    Applied,
    /// No resource is filed under the identifier; nothing changed.
    UnknownIdentifier,
    /// The bytes hold no envelope; nothing changed.
    MalformedEnvelope,
    /// The resource refused the payload; nothing changed.
    Refused(ApplyError),
}

/// What `outcome` of a resource means for the message.
pub open spec fn delivery_of(outcome: Result<(), ApplyError>) -> Delivery {
    match outcome {
        Ok(_) => Delivery::Applied,
        Err(error) => Delivery::Refused(error),
    }
}

/// What the encoded payload `data`, addressed to `key`, may do to the
/// inbound resources `before`. Where nothing is filed under `key`, nothing
/// changes. Else only the addressed resource changes, as `takes_in` says.
pub open spec fn delivers<A, T: Diffable>(
    before: Seq<(A, InboundResource<T>)>,
    key: A,
    data: Seq<u8>,
    after: Seq<(A, InboundResource<T>)>,
    delivery: Delivery,
) -> bool {
    match lookup(before, key) {
        None => delivery == Delivery::UnknownIdentifier && after == before,
        Some(resource) => exists|value: T, outcome: Result<(), ApplyError>| #[trigger]
            takes_in(resource.value(), data, value, outcome) && delivery == delivery_of(outcome)
                && after == upsert(before, key, InboundResource::holding(value)),
    }
}

impl<I: Identifier, O: Identifier, T: Diffable> HashMapResources<I, O, T> {
    /// Hands the encoded payload `data` to the inbound resource filed under
    /// `identifier`: see `delivers`.
    pub fn deliver(&mut self, identifier: &I, data: &Vec<u8>) -> (delivery: Delivery)
        ensures
            delivers(
                old(self).inbound_resources@,
                identifier.key(),
                data@,
                final(self).inbound_resources@,
                delivery,
            ),
            final(self).outbound_resources == old(self).outbound_resources,
    {
        proof {
            use_type_invariant(&self.inbound_resources);
            self.inbound_resources.lemma_well_formed();
        }
        let ghost before = self.inbound_resources@;
        let ghost mut value: Option<T> = None;
        let ghost mut result: Result<(), ApplyError> = Ok(());
        let delivery = match self.inbound_resources.get_mut(identifier) {
            Some(resource) => {
                let ghost held = resource.value();
                let outcome = resource.deserialize(data);
                proof {
                    resource.lemma_holding();
                    value = Some(resource.value());
                    result = outcome;
                    assert(takes_in(held, data@, resource.value(), outcome));
                }
                match outcome {
                    Ok(_) => Delivery::Applied,
                    Err(error) => Delivery::Refused(error),
                }
            },
            None => Delivery::UnknownIdentifier,
        };
        proof {
            if lookup(before, identifier.key()) is Some {
                let found = lookup(before, identifier.key()).unwrap();
                assert(takes_in(found.value(), data@, value.unwrap(), result));
                assert(self.inbound_resources@ == upsert(
                    before,
                    identifier.key(),
                    InboundResource::holding(value.unwrap()),
                ));
            }
        }
        delivery
    }
}

} // verus!
