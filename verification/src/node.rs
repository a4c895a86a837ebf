//! A transport together with the registry of what is replicated over it.

use crate::resources::Resources;
use crate::table::Identifier;
use core::marker::PhantomData;
use core::ops::Deref;
use vstd::prelude::*;

verus! {

/// Owns one transport and one registry, and adds nothing of its own.
pub struct Node<N, I: Identifier, O: Identifier, R: Resources<I, O>> {
    pub node: N,
    pub resources: R,
    pub _phantom: PhantomData<(I, O)>,
}

impl<N, I: Identifier, O: Identifier, R: Resources<I, O>> Node<N, I, O, R> {
    /// A node over `node` whose registry holds nothing.
    pub fn new(node: N) -> (created: Self)
        ensures
            created.node == node,
            created.resources.inbound_entries().len() == 0,
            created.resources.outbound_entries().len() == 0,
    {
        Node { node, resources: R::new(), _phantom: PhantomData }
    }

    pub fn resources(&self) -> (resources: &R)
        ensures
            *resources == self.resources,
    {
        &self.resources
    }

    /// Exclusive access to the registry; the transport stays as it is.
    pub fn resources_mut(&mut self) -> (resources: &mut R)
        ensures
            *resources == old(self).resources,
            final(self).resources == *final(resources),
            final(self).node == old(self).node,
    {
        &mut self.resources
    }

    /// Exclusive access to the transport; the registry stays as it is.
    pub fn deref_mut(&mut self) -> (node: &mut N)
        ensures
            *node == old(self).node,
            final(self).node == *final(node),
            final(self).resources == old(self).resources,
    {
        &mut self.node
    }
}

impl<N, I: Identifier, O: Identifier, R: Resources<I, O>> Deref for Node<N, I, O, R> {
    type Target = N;

    fn deref(&self) -> (node: &N)
        ensures
            *node == self.node,
    {
        &self.node
    }
}

} // verus!
