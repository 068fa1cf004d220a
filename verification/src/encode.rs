//! RLP-encoding the nodes an update builds, straight into the scratch they live in.

use vstd::prelude::*;
use vstd::slice::slice_subrange;

use crate::error::PathError;
use crate::keccak::{keccak, keccak256};
use crate::nibbles::{
    hex_prefix, hex_prefix_encode, hex_prefix_from_key, is_path, unpacked, MAX_ENCODED_PATH,
    MAX_NIBBLES,
};
use crate::node::{empty_rlp, items_view, DIGEST_LEN, MAX_BRANCH_RLP, MAX_ITEM, MAX_LEAF_VALUE};
use crate::rlp::{
    be_bytes, header_len, rlp_header, rlp_list, rlp_string, string_length, EMPTY_LIST_CODE,
    EMPTY_STRING_CODE,
};
use crate::stack::{
    keeps_length, lemma_header_len, list_bytes, path_bytes, spent, spliced, took, write_bytes,
    DynStack, LEAF_TAIL,
};

verus! {

/// Bytes of the widest leaf, which carries a whole key and an account.
pub const MAX_LEAF_RLP: usize = 148;

/// Bytes of the widest extension, which carries a whole key and a reference.
pub const MAX_EXTENSION_RLP: usize = 69;

/// Bytes of the widest branch with a child absent.
pub const MAX_GAPPED_BRANCH_RLP: usize = 500;

/// A leaf whose path is already hex-prefix encoded.
pub open spec fn encoded_leaf_rlp(encoded: Seq<u8>, value: Seq<u8>) -> Seq<u8> {
    rlp_list(rlp_string(encoded) + rlp_string(value))
}

/// A leaf holding `value` at `path`.
pub open spec fn leaf_rlp(path: Seq<u8>, value: Seq<u8>) -> Seq<u8> {
    encoded_leaf_rlp(hex_prefix(path, true), value)
}

/// An extension whose path is already hex-prefix encoded, referencing its child through `item`.
pub open spec fn encoded_extension_rlp(encoded: Seq<u8>, item: Seq<u8>) -> Seq<u8> {
    rlp_list(rlp_string(encoded) + item)
}

/// An extension at `path` referencing its child through `item`.
pub open spec fn extension_rlp(path: Seq<u8>, item: Seq<u8>) -> Seq<u8> {
    encoded_extension_rlp(hex_prefix(path, false), item)
}

/// The first `count` items, one after another.
pub open spec fn joined(items: Seq<Seq<u8>>, count: nat) -> Seq<u8>
    decreases count,
{
    if count == 0 {
        Seq::empty()
    } else {
        joined(items, (count - 1) as nat) + items[count - 1]
    }
}

/// A branch over sixteen child items, whose value slot is empty.
pub open spec fn branch_rlp(items: Seq<Seq<u8>>) -> Seq<u8> {
    rlp_list(joined(items, 16) + empty_rlp())
}

/// The item a parent references a hashed node through.
pub open spec fn digest_item(digest: [u8; 32]) -> Seq<u8> {
    seq![0xa0u8] + digest@
}

/// The item a parent references `node_rlp` through, which is the node itself when short enough to
/// sit in place and the RLP of its hash otherwise.
pub open spec fn reference_of(node_rlp: Seq<u8>) -> Seq<u8> {
    if node_rlp.len() < DIGEST_LEN {
        node_rlp
    } else {
        digest_item(keccak(node_rlp))
    }
}

/// The bytes a power of the base of a big-endian string counts to.
spec fn pow256(exponent: nat) -> nat
    decreases exponent,
{
    if exponent == 0 {
        1
    } else {
        256 * pow256((exponent - 1) as nat)
    }
}

/// A number below a power of the base takes no more bytes than its exponent.
proof fn lemma_be_bytes_len(value: nat, exponent: nat)
    requires
        value < pow256(exponent),
    ensures
        be_bytes(value).len() <= exponent,
    decreases exponent,
{
    if value > 0 {
        lemma_be_bytes_len(value / 256, (exponent - 1) as nat);
    }
}

/// A header is no longer than its length and a word of bytes.
pub proof fn lemma_header_fits(payload_length: usize)
    ensures
        be_bytes(payload_length as nat).len() <= 8,
        1 <= header_len(payload_length as nat) <= 9,
        rlp_header(EMPTY_LIST_CODE, payload_length as nat).len() == header_len(
            payload_length as nat,
        ),
        rlp_header(EMPTY_STRING_CODE, payload_length as nat).len() == header_len(
            payload_length as nat,
        ),
{
    reveal_with_fuel(pow256, 9);
    lemma_be_bytes_len(payload_length as nat, 8);
}

/// A path encodes to the bytes its nibbles take.
proof fn lemma_path_len(path: Seq<u8>, is_leaf: bool)
    requires
        is_path(path),
        path.len() <= MAX_NIBBLES,
    ensures
        rlp_string(hex_prefix(path, is_leaf)).len() == path_bytes(path.len() as int),
        path_bytes(path.len() as int) <= 34,
{
    let encoded = hex_prefix(path, is_leaf);
    assert(encoded.len() == 1 + path.len() / 2);
    lemma_header_len(encoded.len());
    if path.len() == 1 {
        assert(path[0] < 16);
    }
}

/// A leaf of a trie keeps to the widest one.
pub proof fn lemma_leaf_len(path: Seq<u8>, value: Seq<u8>)
    requires
        is_path(path),
        path.len() <= MAX_NIBBLES,
        value.len() <= MAX_LEAF_VALUE,
    ensures
        leaf_rlp(path, value).len() <= MAX_LEAF_RLP,
        path.len() == 0 ==> value.len() + leaf_rlp(path, value).len() <= LEAF_TAIL,
{
    lemma_path_len(path, true);
    lemma_header_len(value.len());
    lemma_header_len((rlp_string(hex_prefix(path, true)) + rlp_string(value)).len());
    assert(rlp_string(value).len() <= 2 + value.len());
}

/// An extension of a trie keeps to the widest one.
pub proof fn lemma_extension_len(path: Seq<u8>, item: Seq<u8>)
    requires
        is_path(path),
        path.len() <= MAX_NIBBLES,
        item.len() <= MAX_ITEM,
    ensures
        extension_rlp(path, item).len() == list_bytes(path_bytes(path.len() as int) + item.len()),
        extension_rlp(path, item).len() <= MAX_EXTENSION_RLP,
{
    lemma_path_len(path, false);
    lemma_header_len((rlp_string(hex_prefix(path, false)) + item).len());
}

/// An extension of a trie keeps to the widest one, however its path is written.
pub proof fn lemma_encoded_extension_len(encoded: Seq<u8>, item: Seq<u8>)
    requires
        encoded.len() <= MAX_ENCODED_PATH,
        item.len() <= MAX_ITEM,
    ensures
        encoded_extension_rlp(encoded, item).len() <= MAX_EXTENSION_RLP,
{
    lemma_header_len((rlp_string(encoded) + item).len());
}

/// Whether every item is no wider than a reference.
pub open spec fn narrow_items(items: Seq<Seq<u8>>) -> bool {
    items.len() == 16 && forall|i: int| 0 <= i < 16 ==> (#[trigger] items[i]).len() <= MAX_ITEM
}

/// A branch of a trie keeps to the widest one, which one absent child narrows.
pub proof fn lemma_branch_len(items: Seq<Seq<u8>>)
    requires
        narrow_items(items),
    ensures
        joined(items, 16).len() <= 16 * MAX_ITEM,
        branch_rlp(items).len() <= MAX_BRANCH_RLP,
        (exists|i: int| 0 <= i < 16 && #[trigger] items[i] == empty_rlp()) ==> branch_rlp(
            items,
        ).len() <= MAX_GAPPED_BRANCH_RLP,
{
    lemma_joined_bound(items, 16);
    lemma_header_len((joined(items, 16) + empty_rlp()).len());
}

/// Items one after another are as wide as references, which one absent item narrows.
proof fn lemma_joined_bound(items: Seq<Seq<u8>>, count: nat)
    requires
        narrow_items(items),
        count <= 16,
    ensures
        joined(items, count).len() <= count * MAX_ITEM,
        (exists|i: int| 0 <= i < count && #[trigger] items[i] == empty_rlp()) ==> joined(
            items,
            count,
        ).len() <= count * MAX_ITEM - DIGEST_LEN,
    decreases count,
{
    if count > 0 {
        lemma_joined_bound(items, (count - 1) as nat);
        assert(items[count - 1].len() <= MAX_ITEM);
        if exists|i: int| 0 <= i < count && #[trigger] items[i] == empty_rlp() {
            let i = choose|i: int| 0 <= i < count && #[trigger] items[i] == empty_rlp();
            if i < count - 1 {
                assert(items[i] == empty_rlp());
            }
        }
    }
}

/// RLP-encodes a leaf holding `value` at `path`.
pub fn encode_leaf<'s>(path: &[u8], value: &[u8], stack: &mut DynStack<'s>) -> (node_rlp: &'s [u8])
    requires
        is_path(path@),
        path@.len() < 2 * MAX_ENCODED_PATH,
        value@.len() <= usize::MAX - 60,
    ensures
        node_rlp@ == leaf_rlp(path@, value@),
        took(*old(stack), *final(stack), node_rlp@.len()),
        spent(*old(stack), *final(stack), leaf_rlp(path@, value@).len() as int),
        *final(final(stack).peak) == *final(old(stack).peak),
        keeps_length(
            old(stack).free@,
            final(old(stack).free)@,
            final(stack).free@,
            final(final(stack).free)@,
        ),
{
    let mut buf: [u8; 33] = [0; 33];
    let encoded = hex_prefix_encode(path, true, &mut buf);
    encode_leaf_encoded(encoded, value, stack)
}

/// RLP-encodes a leaf holding `value` at the nibbles `key` carries from `depth`, which is where a
/// leaf a descent writes takes its path from.
pub fn encode_leaf_from_key<'s>(
    key: &[u8; 32],
    depth: usize,
    value: &[u8],
    stack: &mut DynStack<'s>,
) -> (node_rlp: &'s [u8])
    requires
        depth <= MAX_NIBBLES,
        value@.len() <= usize::MAX - 60,
    ensures
        node_rlp@ == leaf_rlp(unpacked(key@).skip(depth as int), value@),
        took(*old(stack), *final(stack), node_rlp@.len()),
        spent(
            *old(stack),
            *final(stack),
            leaf_rlp(unpacked(key@).skip(depth as int), value@).len() as int,
        ),
        *final(final(stack).peak) == *final(old(stack).peak),
        keeps_length(
            old(stack).free@,
            final(old(stack).free)@,
            final(stack).free@,
            final(final(stack).free)@,
        ),
{
    let mut buf: [u8; 33] = [0; 33];
    let path = hex_prefix_from_key(key, depth, MAX_NIBBLES, true, &mut buf);
    assert(unpacked(key@).subrange(depth as int, 64) =~= unpacked(key@).skip(depth as int));
    encode_leaf_encoded(path, value, stack)
}

/// RLP-encodes a leaf whose path is already hex-prefix encoded.
pub fn encode_leaf_encoded<'s>(path: &[u8], value: &[u8], stack: &mut DynStack<'s>) -> (node_rlp:
    &'s [u8])
    requires
        path@.len() + value@.len() <= usize::MAX - 27,
    ensures
        node_rlp@ == encoded_leaf_rlp(path@, value@),
        took(*old(stack), *final(stack), node_rlp@.len()),
        spent(*old(stack), *final(stack), encoded_leaf_rlp(path@, value@).len() as int),
        *final(final(stack).peak) == *final(old(stack).peak),
        keeps_length(
            old(stack).free@,
            final(old(stack).free)@,
            final(stack).free@,
            final(final(stack).free)@,
        ),
{
    proof {
        lemma_header_fits(path.len());
        lemma_header_fits(value.len());
    }
    let path_length: usize = string_length(path);
    let value_length: usize = string_length(value);
    let (out, pos) = alloc_list(path_length + value_length, stack);
    let pos = write_string(out, pos, path);
    write_string(out, pos, value);
    assert(out@ =~= encoded_leaf_rlp(path@, value@));
    out
}

/// RLP-encodes an extension at `path` referencing its child through the whole RLP item `item`.
pub fn encode_extension<'s>(path: &[u8], item: &[u8], stack: &mut DynStack<'s>) -> (node_rlp:
    &'s [u8])
    requires
        is_path(path@),
        path@.len() < 2 * MAX_ENCODED_PATH,
        item@.len() <= usize::MAX - 60,
    ensures
        node_rlp@ == extension_rlp(path@, item@),
        took(*old(stack), *final(stack), node_rlp@.len()),
        spent(*old(stack), *final(stack), extension_rlp(path@, item@).len() as int),
        *final(final(stack).peak) == *final(old(stack).peak),
        keeps_length(
            old(stack).free@,
            final(old(stack).free)@,
            final(stack).free@,
            final(final(stack).free)@,
        ),
{
    let mut buf: [u8; 33] = [0; 33];
    let encoded = hex_prefix_encode(path, false, &mut buf);
    encode_extension_encoded(encoded, item, stack)
}

/// RLP-encodes an extension whose path is already hex-prefix encoded, which is every extension a
/// descent leaves the path of alone.
pub fn encode_extension_encoded<'s>(path: &[u8], item: &[u8], stack: &mut DynStack<'s>) -> (node_rlp:
    &'s [u8])
    requires
        path@.len() + item@.len() <= usize::MAX - 18,
    ensures
        node_rlp@ == encoded_extension_rlp(path@, item@),
        took(*old(stack), *final(stack), node_rlp@.len()),
        spent(*old(stack), *final(stack), encoded_extension_rlp(path@, item@).len() as int),
        *final(final(stack).peak) == *final(old(stack).peak),
        keeps_length(
            old(stack).free@,
            final(old(stack).free)@,
            final(stack).free@,
            final(final(stack).free)@,
        ),
{
    proof {
        lemma_header_fits(path.len());
    }
    let path_length: usize = string_length(path);
    let (out, pos) = alloc_list(path_length + item.len(), stack);
    let pos = write_string(out, pos, path);
    write_bytes(out, pos, item);
    assert(out@ =~= encoded_extension_rlp(path@, item@));
    out
}

/// A list is not the empty node, and is not referenced as one either.
pub proof fn lemma_list_filled(payload: Seq<u8>)
    ensures
        rlp_list(payload) != empty_rlp(),
        reference_of(rlp_list(payload)) != empty_rlp(),
{
    let bytes = rlp_list(payload);
    if payload.len() == 0 {
        assert(bytes[0] == 0xc0);
        assert(empty_rlp()[0] == 0x80);
    } else {
        assert(bytes.len() > 1);
    }
    assert(empty_rlp().len() == 1);
}

/// A run of items is no longer than a longer run of them.
proof fn lemma_joined_len(items: Seq<Seq<u8>>, count: nat, later: nat)
    requires
        count <= later,
    ensures
        joined(items, count).len() <= joined(items, later).len(),
    decreases later,
{
    if count < later {
        lemma_joined_len(items, count, (later - 1) as nat);
    }
}

/// RLP-encodes a branch from its child items, leaving the value slot a trie of fixed-length keys
/// never fills empty.
pub fn encode_branch<'s>(children: &[&[u8]; 16], stack: &mut DynStack<'s>) -> (node_rlp: &'s [u8])
    requires
        joined(items_view(*children), 16).len() <= usize::MAX - 10,
    ensures
        node_rlp@ == branch_rlp(items_view(*children)),
        took(*old(stack), *final(stack), node_rlp@.len()),
        spent(*old(stack), *final(stack), branch_rlp(items_view(*children)).len() as int),
        *final(final(stack).peak) == *final(old(stack).peak),
        keeps_length(
            old(stack).free@,
            final(old(stack).free)@,
            final(stack).free@,
            final(final(stack).free)@,
        ),
{
    let ghost items = items_view(*children);
    let mut payload_length: usize = 0;
    let mut index: usize = 0;
    while index < 16
        invariant
            index <= 16,
            items == items_view(*children),
            payload_length == joined(items, index as nat).len(),
            joined(items, 16).len() <= usize::MAX - 10,
        decreases 16 - index,
    {
        proof {
            lemma_joined_len(items, (index + 1) as nat, 16);
        }
        payload_length = payload_length + children[index].len();
        index = index + 1;
    }
    let (out, pos) = alloc_list(payload_length + 1, stack);
    let start: usize = pos;
    let ghost header = rlp_header(EMPTY_LIST_CODE, (payload_length + 1) as nat);
    let mut pos: usize = pos;
    let mut index: usize = 0;
    while index < 16
        invariant
            index <= 16,
            items == items_view(*children),
            start == header.len(),
            pos == start + joined(items, index as nat).len(),
            out@.len() == start + joined(items, 16).len() + 1,
            out@.subrange(0, pos as int) == header + joined(items, index as nat),
        decreases 16 - index,
    {
        proof {
            lemma_joined_len(items, (index + 1) as nat, 16);
        }
        let ghost before = out@;
        let ghost at = pos as int;
        pos = write_bytes(out, pos, children[index]);
        assert(out@.subrange(0, pos as int) =~= before.subrange(0, at) + items[index as int]);
        assert(header + joined(items, index as nat) + items[index as int] =~= header + joined(
            items,
            (index + 1) as nat,
        ));
        index = index + 1;
    }
    let ghost filled = out@.subrange(0, pos as int);
    out[pos] = EMPTY_STRING_CODE;
    assert(filled =~= out@.subrange(0, pos as int));
    assert(out@ =~= filled.push(EMPTY_STRING_CODE));
    assert(out@ =~= branch_rlp(items));
    out
}

/// Re-encodes a branch with the `start..end` bytes of its payload, one child, replaced by `item`.
///
/// The children on either side keep the bytes they arrived as, so replacing one costs two copies
/// rather than reassembling all sixteen.
///
/// A branch of the canonical trie holds seventeen items no wider than a reference, so what this
/// comes to is a branch of that trie too. Checking the length it comes to is what the frame this
/// builds in is sized against, and costs one comparison rather than a walk over the items on either
/// side.
pub fn splice_branch<'s>(
    payload: &[u8],
    start: usize,
    end: usize,
    item: &[u8],
    stack: &mut DynStack<'s>,
) -> (node_rlp: Result<&'s [u8], PathError>)
    requires
        start <= end <= payload@.len(),
    ensures
        match spliced_branch(payload@, start as int, end as int, item@) {
            Ok(bytes) => node_rlp is Ok && node_rlp->Ok_0@ == bytes,
            Err(error) => node_rlp == Err::<&'s [u8], PathError>(error),
        },
        node_rlp is Err ==> final(stack).free@ == old(stack).free@ && *final(stack).peak == *old(
            stack,
        ).peak,
        node_rlp matches Ok(bytes) ==> took(*old(stack), *final(stack), bytes@.len()),
        spent(*old(stack), *final(stack), MAX_BRANCH_RLP as int),
        *final(final(stack).peak) == *final(old(stack).peak),
        keeps_length(
            old(stack).free@,
            final(old(stack).free)@,
            final(stack).free@,
            final(final(stack).free)@,
        ),
{
    let kept: usize = payload.len() - (end - start);
    proof {
        lemma_header_fits(payload.len());
        assert(spliced(payload@, start as int, end as int, item@).len() == kept + item@.len());
    }
    if kept > MAX_BRANCH_RLP || item.len() > MAX_BRANCH_RLP {
        return Err(PathError::OversizedNode);
    }
    let payload_length: usize = kept + item.len();
    proof {
        lemma_header_fits(payload_length);
    }
    if alloy_rlp::length_of_length(payload_length) + payload_length > MAX_BRANCH_RLP {
        return Err(PathError::OversizedNode);
    }
    let (out, pos) = alloc_list(payload_length, stack);
    let pos = write_bytes(out, pos, slice_subrange(payload, 0, start));
    let pos = write_bytes(out, pos, item);
    write_bytes(out, pos, slice_subrange(payload, end, payload.len()));
    assert(out@ =~= rlp_list(spliced(payload@, start as int, end as int, item@)));
    Ok(out)
}

/// A branch with the `start..end` bytes of its payload replaced, where no wider than a branch of
/// the trie.
pub open spec fn spliced_branch(payload: Seq<u8>, start: int, end: int, item: Seq<u8>) -> Result<
    Seq<u8>,
    PathError,
> {
    let node_rlp = rlp_list(spliced(payload, start, end, item));
    if node_rlp.len() > MAX_BRANCH_RLP {
        Err(PathError::OversizedNode)
    } else {
        Ok(node_rlp)
    }
}

/// RLP-encodes `digest` as the 33-byte item a parent references a hashed node through.
pub fn encode_digest<'s>(digest: [u8; 32], stack: &mut DynStack<'s>) -> (item: &'s [u8])
    ensures
        item@ == digest_item(digest),
        took(*old(stack), *final(stack), item@.len()),
        spent(*old(stack), *final(stack), MAX_ITEM as int),
        *final(final(stack).peak) == *final(old(stack).peak),
        keeps_length(
            old(stack).free@,
            final(old(stack).free)@,
            final(stack).free@,
            final(final(stack).free)@,
        ),
{
    let out = stack.allocate(1 + DIGEST_LEN);
    out[0] = 0xa0;
    write_bytes(out, 1, digest.as_slice());
    assert(out@ =~= digest_item(digest));
    out
}

/// The item a parent references `node_rlp` through, which is the node itself when short enough to
/// sit in place and the RLP of its hash otherwise.
pub fn reference<'s>(node_rlp: &'s [u8], stack: &mut DynStack<'s>) -> (item: &'s [u8])
    ensures
        item@ == reference_of(node_rlp@),
        if node_rlp@.len() < DIGEST_LEN {
            final(stack).free@ == old(stack).free@ && *final(stack).peak == *old(stack).peak
        } else {
            took(*old(stack), *final(stack), MAX_ITEM as nat)
        },
        spent(*old(stack), *final(stack), MAX_ITEM as int),
        *final(final(stack).peak) == *final(old(stack).peak),
        keeps_length(
            old(stack).free@,
            final(old(stack).free)@,
            final(stack).free@,
            final(final(stack).free)@,
        ),
{
    if node_rlp.len() < DIGEST_LEN {
        return node_rlp;
    }
    encode_digest(keccak256(node_rlp), stack)
}

/// A copy of the item a parent references a node through, taken because a frame that lends its
/// scratch to a child takes those bytes back when the loan ends, so the item has to leave the loan
/// before it does. [`reference`] is that same item for a node the frame built in its own scratch,
/// which needs no copy.
///
/// Carrying it out is what the borrow checker asks for, and it asks at every such site rather than
/// wherever anyone remembered to look.
pub enum Carried {
    /// The node is shorter than a digest, so it sits in its parent's place and the item is the node
    /// itself.
    Inline([u8; 32], usize),
    /// The node is referenced by hash.
    Hashed([u8; 32]),
}

impl Carried {
    /// The item carried.
    pub open spec fn item(&self) -> Seq<u8> {
        match *self {
            Carried::Inline(inline, len) => inline@.subrange(0, len as int),
            Carried::Hashed(digest) => digest_item(digest),
        }
    }

    /// An inline node leaves a digest's room.
    pub open spec fn well_formed(&self) -> bool {
        self matches Carried::Inline(_, len) ==> len < DIGEST_LEN
    }

    /// The item `node_rlp` is referenced through.
    pub fn of(node_rlp: &[u8]) -> (carried: Self)
        ensures
            carried.well_formed(),
            carried.item() == reference_of(node_rlp@),
    {
        if node_rlp.len() < DIGEST_LEN {
            let mut inline: [u8; 32] = [0; 32];
            let mut at: usize = 0;
            while at < node_rlp.len()
                invariant
                    at <= node_rlp@.len() < 32,
                    forall|i: int| 0 <= i < at ==> inline@[i] == node_rlp@[i],
                decreases node_rlp.len() - at,
            {
                inline[at] = node_rlp[at];
                at = at + 1;
            }
            assert(inline@.subrange(0, node_rlp@.len() as int) =~= node_rlp@);
            return Carried::Inline(inline, node_rlp.len());
        }
        Carried::Hashed(keccak256(node_rlp))
    }

    /// Writes the item into the scratch.
    pub fn write<'s>(self, stack: &mut DynStack<'s>) -> (item: &'s [u8])
        requires
            self.well_formed(),
        ensures
            item@ == self.item(),
            took(*old(stack), *final(stack), item@.len()),
            spent(*old(stack), *final(stack), self.item().len() as int),
            *final(final(stack).peak) == *final(old(stack).peak),
            keeps_length(
                old(stack).free@,
                final(old(stack).free)@,
                final(stack).free@,
                final(final(stack).free)@,
            ),
    {
        match self {
            Carried::Inline(inline, len) => stack.alloc_copy(slice_subrange(inline.as_slice(), 0, len)),
            Carried::Hashed(digest) => encode_digest(digest, stack),
        }
    }
}

/// Allocates a list of `payload_length` bytes in the scratch and returns it with the position its
/// payload starts at.
fn alloc_list<'s>(payload_length: usize, stack: &mut DynStack<'s>) -> (list: (&'s mut [u8], usize))
    requires
        payload_length <= usize::MAX - 9,
    ensures
        list.0@.len() == header_len(payload_length as nat) + payload_length,
        list.1 == header_len(payload_length as nat),
        list.0@.subrange(0, list.1 as int) == rlp_header(EMPTY_LIST_CODE, payload_length as nat),
        took(*old(stack), *final(stack), list.0@.len()),
        spent(*old(stack), *final(stack), header_len(payload_length as nat) + payload_length),
        *final(final(stack).peak) == *final(old(stack).peak),
        final(list.0)@.len() == list.0@.len() ==> keeps_length(
            old(stack).free@,
            final(old(stack).free)@,
            final(stack).free@,
            final(final(stack).free)@,
        ),
{
    proof {
        lemma_header_fits(payload_length);
    }
    let len: usize = alloy_rlp::length_of_length(payload_length) + payload_length;
    let out = stack.allocate(len);
    let pos = write_header(out, 0, EMPTY_LIST_CODE, payload_length);
    assert(out@.subrange(0, pos as int) =~= rlp_header(EMPTY_LIST_CODE, payload_length as nat));
    (out, pos)
}

/// Writes an RLP header with the given base code at `pos` and returns the position after it.
fn write_header(out: &mut [u8], pos: usize, base_code: u8, payload_length: usize) -> (end: usize)
    requires
        base_code == EMPTY_STRING_CODE || base_code == EMPTY_LIST_CODE,
        pos + header_len(payload_length as nat) <= old(out)@.len(),
    ensures
        end == pos + header_len(payload_length as nat),
        final(out)@ == spliced(
            old(out)@,
            pos as int,
            end as int,
            rlp_header(base_code, payload_length as nat),
        ),
{
    let ghost before = out@;
    let ghost header = rlp_header(base_code, payload_length as nat);
    let size: usize = out.len();
    if payload_length < 56 {
        out[pos] = base_code + payload_length as u8;
        assert(out@ =~= spliced(before, pos as int, pos + 1, header));
        return pos + 1;
    }
    proof {
        lemma_header_fits(payload_length);
    }
    let num_len_bytes: usize = alloy_rlp::length_of_length(payload_length) - 1;
    out[pos] = base_code + 55 + num_len_bytes as u8;
    let ghost len_be = be_bytes(payload_length as nat);
    let ghost coded = out@;
    let mut rest: usize = payload_length;
    let mut count: usize = num_len_bytes;
    while count > 0
        invariant
            count <= num_len_bytes,
            num_len_bytes == len_be.len(),
            len_be.len() <= 8,
            len_be.len() == be_bytes(payload_length as nat).len(),
            size == out@.len(),
            size == coded.len(),
            pos + 1 + num_len_bytes <= size,
            be_bytes(rest as nat) == len_be.subrange(0, count as int),
            forall|i: int|
                0 <= i < size ==> #[trigger] out@[i] == if pos + 1 + count <= i < pos + 1
                    + num_len_bytes {
                    len_be[i - pos - 1]
                } else {
                    coded[i]
                },
        decreases count,
    {
        proof {
            let old_rest = rest as nat;
            assert(old_rest > 0) by {
                if old_rest == 0 {
                    assert(be_bytes(old_rest).len() == 0);
                }
            }
            assert(be_bytes(old_rest).last() == (old_rest % 256) as u8);
            assert(be_bytes(old_rest).drop_last() =~= be_bytes(old_rest / 256));
            assert(len_be.subrange(0, count as int).drop_last() =~= len_be.subrange(0, count - 1));
        }
        out[pos + count] = (rest % 256) as u8;
        rest = rest / 256;
        count = count - 1;
    }
    assert(out@ =~= spliced(before, pos as int, pos + 1 + num_len_bytes, header));
    pos + 1 + num_len_bytes
}

/// Writes `bytes` as an RLP string at `pos` and returns the position after it.
fn write_string(out: &mut [u8], pos: usize, bytes: &[u8]) -> (end: usize)
    requires
        pos + rlp_string(bytes@).len() <= old(out)@.len(),
    ensures
        end == pos + rlp_string(bytes@).len(),
        final(out)@ == spliced(old(out)@, pos as int, end as int, rlp_string(bytes@)),
{
    let ghost before = out@;
    let size: usize = out.len();
    if bytes.len() == 1 && bytes[0] < EMPTY_STRING_CODE {
        out[pos] = bytes[0];
        assert(out@ =~= spliced(before, pos as int, pos + 1, bytes@));
        return pos + 1;
    }
    proof {
        lemma_header_fits(bytes.len());
    }
    let body: usize = write_header(out, pos, EMPTY_STRING_CODE, bytes.len());
    let end: usize = write_bytes(out, body, bytes);
    assert(out@ =~= spliced(before, pos as int, end as int, rlp_string(bytes@)));
    end
}

} // verus!
