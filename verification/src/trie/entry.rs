use vstd::prelude::*;
use crate::trie::node::HOTNode;

verus! {

/// An entry in a HOT node, which can be either a leaf containing a key-value pair
/// or a child pointing to another HOT node.
#[verifier::reject_recursive_types(K)]
#[verifier::reject_recursive_types(V)]
#[derive(Debug)]
pub enum Entry<K, V> {
    Leaf(K, V, u32),
    Child(K, Box<HOTNode<K, V>>, u32),
}

impl<K, V> Entry<K, V> {
    /// The representative key: the key of a leaf, the stored minimum of a child.
    pub open spec fn spec_key(self) -> K {
        match self {
            Entry::Leaf(k, _, _) => k,
            Entry::Child(k, _, _) => k,
        }
    }

    /// The partial key stored in the entry.
    pub open spec fn spec_partial_key(self) -> u32 {
        match self {
            Entry::Leaf(_, _, pk) => pk,
            Entry::Child(_, _, pk) => pk,
        }
    }

    /// The entry with its partial key replaced.
    pub open spec fn with_partial_key(self, pk: u32) -> Self {
        match self {
            Entry::Leaf(k, v, _) => Entry::Leaf(k, v, pk),
            Entry::Child(k, n, _) => Entry::Child(k, n, pk),
        }
    }

    /// Returns the representative key for this entry.
    /// For leaves, this is the actual key. For children, it's the stored minimum key.
    pub fn key(&self) -> (k: &K)
        ensures
            *k == self.spec_key(),
    {
        match self {
            Entry::Leaf(k, _, _) => k,
            Entry::Child(k, _, _) => k,
        }
    }

    /// Returns the partial key stored in this entry.
    pub fn partial_key(&self) -> (pk: u32)
        ensures
            pk == self.spec_partial_key(),
    {
        match self {
            Entry::Leaf(_, _, pk) => *pk,
            Entry::Child(_, _, pk) => *pk,
        }
    }

    /// Sets the partial key for this entry.
    pub fn set_partial_key(&mut self, pk: u32)
        ensures
            *final(self) == old(self).with_partial_key(pk),
    {
        match self {
            Entry::Leaf(_, _, p) => *p = pk,
            Entry::Child(_, _, p) => *p = pk,
        }
    }
}

} // verus!
