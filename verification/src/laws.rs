//! What holds of every replicated value whose codec keeps its word.

use crate::resources::{
    applies, decodes, differs, encodes, offers, patches, settled, ApplyError, Diffable,
    OutboundResource,
};
use crate::wire::Payload;
use vstd::prelude::*;

verus! {

/// Decoding gives back what was encoded.
pub open spec fn decoding_inverts_encoding<T: Diffable>() -> bool {
    forall|value: T, bytes: Seq<u8>, current: T, decoded: Option<T>|
        #![trigger encodes(value, bytes), decodes(current, bytes, decoded)]
        encodes(value, bytes) && decodes(current, bytes, decoded) ==> decoded == Some(value)
}

/// Taking in the changes from one value to another leads from the one to
/// the other.
pub open spec fn patching_inverts_diffing<T: Diffable>() -> bool {
    forall|older: T, newer: T, changes: Seq<u8>, patched: Option<T>|
        #![trigger differs(older, newer, Some(changes)), patches(older, changes, patched)]
        differs(older, newer, Some(changes)) && patches(older, changes, patched) ==> patched
            == Some(newer)
}

/// A value does not differ from itself.
pub open spec fn equal_values_do_not_differ<T: Diffable>() -> bool {
    forall|value: T, changes: Option<Seq<u8>>| #[trigger]
        differs(value, value, changes) ==> changes is None
}

/// A whole value that an outbound resource offers, taken in by any inbound
/// resource, leaves that resource with the sender's value.
pub proof fn lemma_full_round_trip<T: Diffable>(
    sender: OutboundResource<T>,
    full: bool,
    payload: Payload,
    before: T,
    after: T,
    outcome: Result<(), ApplyError>,
)
    requires
        decoding_inverts_encoding::<T>(),
        offers(sender, full, Some(payload)),
        !payload.is_diff(),
        applies(before, payload, after, outcome),
    ensures
        outcome is Ok,
        after == sender.value(),
{
    assert(encodes(sender.value(), payload.content()));
    let decoded = choose|decoded: Option<T>| #[trigger]
        decodes(before, payload.content(), decoded) && match decoded {
            Some(value) => outcome is Ok && after == value,
            None => outcome == Err::<(), ApplyError>(ApplyError::MalformedValue) && after == before,
        };
    assert(decodes(before, payload.content(), decoded));
}

/// The changes that an outbound resource offers, taken in by an inbound
/// resource that holds the sender's baseline, leave that resource with the
/// sender's value.
pub proof fn lemma_diff_round_trip<T: Diffable>(
    sender: OutboundResource<T>,
    payload: Payload,
    after: T,
    outcome: Result<(), ApplyError>,
)
    requires
        patching_inverts_diffing::<T>(),
        sender.baseline() is Some,
        offers(sender, false, Some(payload)),
        payload.is_diff(),
        applies(sender.baseline().unwrap(), payload, after, outcome),
    ensures
        outcome is Ok,
        after == sender.value(),
{
    let older = sender.baseline().unwrap();
    let changes = choose|changes: Option<Seq<u8>>| #[trigger]
        differs(older, sender.value(), changes) && match changes {
            None => false,
            Some(delta) => exists|whole: Seq<u8>| #[trigger]
                encodes(sender.value(), whole) && payload.is_diff() == (whole.len() > delta.len())
                    && payload.content() == if whole.len() > delta.len() {
                    delta
                } else {
                    whole
                },
        };
    assert(differs(older, sender.value(), Some(payload.content())));
    let patched = choose|patched: Option<T>| #[trigger]
        patches(older, payload.content(), patched) && match patched {
            Some(value) => outcome is Ok && after == value,
            None => outcome == Err::<(), ApplyError>(ApplyError::DiffRejected) && after == older,
        };
    assert(patches(older, payload.content(), patched));
}

/// A resource whose value equals its baseline offers nothing unless forced,
/// touched or not.
pub proof fn lemma_no_change_no_offer<T: Diffable>(
    resource: OutboundResource<T>,
    offer: Option<Payload>,
)
    requires
        equal_values_do_not_differ::<T>(),
        resource.baseline() == Some(resource.value()),
        offers(resource, false, offer),
    ensures
        offer is None,
{
}

/// A resource without a baseline offers its whole value, forced or not.
pub proof fn lemma_first_offer_is_full<T: Diffable>(
    resource: OutboundResource<T>,
    full: bool,
    offer: Option<Payload>,
)
    requires
        resource.baseline() is None,
        offers(resource, full, offer),
    ensures
        offer matches Some(payload) && !payload.is_diff() && encodes(
            resource.value(),
            payload.content(),
        ),
{
}

/// Each time a resource is settled its generation goes up by one, from 0.
pub proof fn lemma_generations_count_up<T: Diffable>(
    before: OutboundResource<T>,
    after: OutboundResource<T>,
)
    requires
        settled(before, after),
    ensures
        match before.spec_generation() {
            Some(last) => after.spec_generation() matches Some(next) && next == last + 1,
            None => after.spec_generation() == Some(0usize),
        },
{
}

} // verus!
