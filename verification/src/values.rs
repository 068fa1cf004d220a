//! The values a change set carries, encoded only once a descent reaches the leaf that holds them.

use vstd::prelude::*;

use crate::node::MAX_LEAF_VALUE;
use crate::stack::{keeps_length, spent, took, DynStack};

verus! {

/// The values a change set carries, encoded only once the descent reaches the leaf that holds them
/// so nothing a change set contributes outlives the node it is copied into.
///
/// A change names its value by the index it took in the source the caller drew it from, so an
/// implementation is whatever slice that source is.
pub trait ChangedValues {
    /// The RLP of every value.
    spec fn rlps(&self) -> Seq<Seq<u8>>;

    /// The RLP of the value at `index`.
    fn encode<'s>(&self, index: u32, stack: &mut DynStack<'s>) -> (value_rlp: &'s [u8])
        requires
            index < self.rlps().len(),
        ensures
            value_rlp@ == self.rlps()[index as int],
            took(*old(stack), *final(stack), value_rlp@.len()),
            spent(*old(stack), *final(stack), value_rlp@.len() as int),
            *final(final(stack).peak) == *final(old(stack).peak),
            keeps_length(
                old(stack).free@,
                final(old(stack).free)@,
                final(stack).free@,
                final(final(stack).free)@,
            ),
    ;
}

/// A value that knows the length it encodes to and writes itself into that many bytes.
pub trait LeafValue {
    /// The RLP of the value.
    spec fn rlp(&self) -> Seq<u8>;

    /// Bytes the value encodes to.
    fn rlp_length(&self) -> (len: usize)
        ensures
            len == self.rlp().len(),
    ;

    /// Writes the value into as many bytes as it encodes to.
    fn write_rlp(&self, out: &mut [u8])
        requires
            old(out)@.len() == self.rlp().len(),
        ensures
            final(out)@ == self.rlp(),
    ;
}

/// RLP-encodes a value straight into the scratch.
///
/// A leaf carries no more than an account, so a wider value has no place in a trie.
pub fn encode_value<'s, T: LeafValue>(value: &T, stack: &mut DynStack<'s>) -> (value_rlp: &'s [u8])
    requires
        value.rlp().len() <= MAX_LEAF_VALUE,
    ensures
        value_rlp@ == value.rlp(),
        took(*old(stack), *final(stack), value_rlp@.len()),
        spent(*old(stack), *final(stack), value.rlp().len() as int),
        *final(final(stack).peak) == *final(old(stack).peak),
        keeps_length(
            old(stack).free@,
            final(old(stack).free)@,
            final(stack).free@,
            final(final(stack).free)@,
        ),
{
    let out = stack.allocate(value.rlp_length());
    value.write_rlp(out);
    out
}

/// Raw bytes, indexed as the change set that named them.
impl ChangedValues for [&[u8]] {
    open spec fn rlps(&self) -> Seq<Seq<u8>> {
        Seq::new(self@.len(), |i: int| self@[i]@)
    }

    fn encode<'s>(&self, index: u32, stack: &mut DynStack<'s>) -> (value_rlp: &'s [u8]) {
        stack.alloc_copy(self[index as usize])
    }
}

} // verus!
