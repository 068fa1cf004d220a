//! What any witness comes to, whether or not it is one of a canonical trie: what its bytes are taken
//! for, what is refused and as what, and where a read goes from each kind of node.

use vstd::prelude::*;

use crate::account::{account_of_rlp, word_of, TrieAccount};
use crate::canonical::{
    lemma_header_read, lemma_item_starts, lemma_list_read, lemma_string_read, whole_item,
};
use crate::descent::{branch_child, child_of, walked};
use crate::encode::{joined, lemma_header_fits};
use crate::error::PathError;
use crate::forms::law_zero_word;
use crate::keccak::{keccak, lemma_digest_of};
use crate::nibbles::{lemma_byte_bits, path_of, unpacked};
use crate::node::{
    branch_items, item_len, item_start, items_until, lemma_item_start_fails,
    lemma_items_until_fails, list_payload_of, node_of, node_of_payload, short_node_of, NodeView,
};
use crate::path::{account_read, storage_read, trie_read};
use crate::rlp::{
    header_of, rlp_header, rlp_list, rlp_string, string_of, HeaderView, EMPTY_LIST_CODE,
};
use crate::state::zero_word;

verus! {

/// The node two items are taken for.
proof fn lemma_two_items(first: Seq<u8>, second: Seq<u8>)
    requires
        whole_item(first),
        whole_item(second),
        first.len() + second.len() <= usize::MAX,
    ensures
        node_of(rlp_list(first + second)) == short_node_of(first, second),
{
    let payload = first + second;
    lemma_list_read(payload);
    lemma_starts_behind(first, second, Seq::empty());
    assert(payload + Seq::empty() =~= payload);
    assert(node_of(rlp_list(payload)) == node_of_payload(payload)) by {
        reveal(node_of);
    }
    assert(payload.subrange(0, first.len() as int) =~= first);
    assert(payload.subrange(first.len() as int, payload.len() as int) =~= second);
}

/// A string is told by its own front.
proof fn lemma_whole_string(bytes: Seq<u8>)
    requires
        bytes.len() <= usize::MAX,
    ensures
        whole_item(rlp_string(bytes)),
        string_of(rlp_string(bytes)) == Ok::<Seq<u8>, alloy_rlp::Error>(bytes),
{
    assert forall|rest: Seq<u8>| item_len(#[trigger] (rlp_string(bytes) + rest)) == Ok::<
        nat,
        PathError,
    >(rlp_string(bytes).len()) by {
        lemma_string_read(bytes, rest);
    }
    lemma_string_read(bytes, Seq::empty());
    assert(rlp_string(bytes) + Seq::empty() =~= rlp_string(bytes));
}

/// A list of two strings is a leaf where the flag byte of the first says so and an extension
/// otherwise. One without a flag byte is refused, and so are an extension that holds no nibble, one
/// whose child is referenced through more than a hash takes and a leaf whose value is wider than an
/// account.
pub proof fn law_two_strings(encoded: Seq<u8>, second: Seq<u8>)
    requires
        rlp_string(encoded).len() + rlp_string(second).len() <= usize::MAX,
    ensures
        node_of(rlp_list(rlp_string(encoded) + rlp_string(second))) == if encoded.len() == 0 {
            Err(PathError::MalformedPath)
        } else if encoded[0] & 0x20 != 0 {
            if second.len() > 110 {
                Err(PathError::OversizedValue)
            } else {
                Ok(NodeView::Leaf { path: encoded, value: second })
            }
        } else if encoded.len() == 1 && encoded[0] & 0x10 == 0 {
            Err(PathError::MalformedPath)
        } else if rlp_string(second).len() > 33 {
            Err(PathError::OversizedItem)
        } else {
            Ok(NodeView::Extension { path: encoded, child: rlp_string(second) })
        },
{
    lemma_whole_string(encoded);
    lemma_whole_string(second);
    lemma_two_items(rlp_string(encoded), rlp_string(second));
    if encoded.len() > 0 {
        lemma_byte_bits(encoded[0]);
    }
}

/// A list of a string and a list is an extension over a node in place, or refused for what it holds.
pub proof fn law_string_and_list(encoded: Seq<u8>, payload: Seq<u8>)
    requires
        rlp_string(encoded).len() + rlp_list(payload).len() <= usize::MAX,
    ensures
        node_of(rlp_list(rlp_string(encoded) + rlp_list(payload))) == if encoded.len() == 0 {
            Err(PathError::MalformedPath)
        } else if encoded[0] & 0x20 != 0 {
            Err(PathError::Rlp(alloy_rlp::Error::UnexpectedList))
        } else if encoded.len() == 1 && encoded[0] & 0x10 == 0 {
            Err(PathError::MalformedPath)
        } else if rlp_list(payload).len() > 33 {
            Err(PathError::OversizedItem)
        } else {
            Ok(NodeView::Extension { path: encoded, child: rlp_list(payload) })
        },
{
    lemma_whole_string(encoded);
    lemma_list_read(payload);
    lemma_two_items(rlp_string(encoded), rlp_list(payload));
    if encoded.len() > 0 {
        lemma_byte_bits(encoded[0]);
    }
}

/// A node whose first item of two is a list is refused, and so are a string and a list of fewer items
/// than two.
pub proof fn law_no_node(payload: Seq<u8>, bytes: Seq<u8>)
    requires
        rlp_list(payload).len() + rlp_string(bytes).len() <= usize::MAX,
    ensures
        node_of(rlp_list(rlp_list(payload) + rlp_string(bytes))) == Err::<NodeView, PathError>(
            PathError::Rlp(alloy_rlp::Error::UnexpectedList),
        ),
        node_of(rlp_string(bytes)) == Err::<NodeView, PathError>(
            PathError::Rlp(alloy_rlp::Error::UnexpectedString),
        ),
        node_of(rlp_list(Seq::empty())) == Err::<NodeView, PathError>(
            PathError::Rlp(alloy_rlp::Error::InputTooShort),
        ),
        node_of(rlp_list(rlp_string(bytes))) == Err::<NodeView, PathError>(
            PathError::Rlp(alloy_rlp::Error::InputTooShort),
        ),
        node_of(Seq::empty()) == Err::<NodeView, PathError>(
            PathError::Rlp(alloy_rlp::Error::InputTooShort),
        ),
{
    lemma_whole_string(bytes);
    lemma_list_read(payload);
    lemma_two_items(rlp_list(payload), rlp_string(bytes));
    reveal(node_of);
    reveal_with_fuel(item_start, 3);
    let none = Seq::<u8>::empty();
    lemma_list_read(none);
    assert(none.skip(0) =~= none);
    let one = rlp_string(bytes);
    lemma_list_read(one);
    assert(one.skip(0) =~= one + none);
    assert(item_len(one + none) == Ok::<nat, PathError>(one.len()));
    assert(one.skip(one.len() as int) =~= none);
}

/// Where the second item of a payload starts and where the third does.
proof fn lemma_starts_behind(first: Seq<u8>, second: Seq<u8>, rest: Seq<u8>)
    requires
        whole_item(first),
        whole_item(second),
    ensures
        item_start(first + second + rest, 1) == Ok::<nat, PathError>(first.len()),
        item_start(first + second + rest, 2) == Ok::<nat, PathError>(first.len() + second.len()),
{
    let items = seq![first, second];
    reveal_with_fuel(joined, 3);
    assert forall|i: int| 0 <= i < items.len() implies whole_item(#[trigger] items[i]) by {}
    lemma_item_starts(items, rest, 2, 1);
    lemma_item_starts(items, rest, 2, 2);
    assert(joined(items, 1) =~= first);
    assert(joined(items, 2) =~= first + second);
}

/// A list of more than two items is a branch, whatever follows the first two.
pub proof fn law_more_items(first: Seq<u8>, second: Seq<u8>, rest: Seq<u8>)
    requires
        whole_item(first),
        whole_item(second),
        rest.len() > 0,
        (first + second + rest).len() <= usize::MAX,
    ensures
        node_of(rlp_list(first + second + rest)) == Ok::<NodeView, PathError>(
            NodeView::Branch { payload: first + second + rest },
        ),
{
    let payload = first + second + rest;
    lemma_list_read(payload);
    lemma_starts_behind(first, second, rest);
    assert(node_of(rlp_list(payload)) == node_of_payload(payload)) by {
        reveal(node_of);
    }
}

/// A string is measured whatever follows it.
proof fn lemma_string_header(bytes: Seq<u8>, rest: Seq<u8>)
    requires
        bytes.len() <= usize::MAX,
    ensures
        header_of(rlp_string(bytes) + rest) matches Ok(header) && !header.list
            && header.payload_length == bytes.len() && (rlp_string(bytes) + rest).subrange(
            header.skipped as int,
            (header.skipped + header.payload_length) as int,
        ) == bytes,
{
    lemma_string_read(bytes, rest);
    let buf = rlp_string(bytes) + rest;
    let header = header_of(buf)->Ok_0;
    let held = buf.subrange(
        header.skipped as int,
        (header.skipped + header.payload_length) as int,
    );
    assert(string_of(buf) == Ok::<Seq<u8>, alloy_rlp::Error>(held));
    assert(item_len(buf) == Ok::<nat, PathError>(header.skipped + header.payload_length));
    assert(header.skipped + header.payload_length <= buf.len());
    assert(held.len() == header.payload_length);
}

/// What an item leads to, whatever follows it: a list is the node itself, an empty string no node, a
/// string as long as a hash the node the witness holds under it, and any other string is refused.
pub proof fn law_child_of_item(
    nodes: Map<[u8; 32], Seq<u8>>,
    payload: Seq<u8>,
    digest: [u8; 32],
    bytes: Seq<u8>,
    rest: Seq<u8>,
)
    requires
        payload.len() <= usize::MAX,
        bytes.len() <= usize::MAX,
    ensures
        child_of(nodes, rlp_list(payload)) == Ok::<Seq<u8>, PathError>(rlp_list(payload)),
        child_of(nodes, rlp_list(payload) + rest) == Ok::<Seq<u8>, PathError>(
            rlp_list(payload) + rest,
        ),
        child_of(nodes, seq![0x80u8] + rest) == Ok::<Seq<u8>, PathError>(seq![0x80u8]),
        child_of(nodes, seq![0xa0u8] + digest@ + rest) == if nodes.contains_key(digest) {
            Ok(nodes[digest])
        } else {
            Err(PathError::NodeNotResolved(digest))
        },
        bytes.len() != 0 && bytes.len() != 32 ==> child_of(nodes, rlp_string(bytes) + rest) == Err::<
            Seq<u8>,
            PathError,
        >(PathError::Rlp(alloy_rlp::Error::UnexpectedLength)),
{
    reveal(child_of);
    lemma_list_header(payload, rest);
    lemma_list_header(payload, Seq::empty());
    assert(rlp_list(payload) + Seq::empty() =~= rlp_list(payload));
    lemma_string_header(digest@, rest);
    assert(rlp_string(digest@) =~= seq![0xa0u8] + digest@);
    lemma_digest_of(digest);
    lemma_string_header(Seq::empty(), rest);
    assert(rlp_string(Seq::empty()) =~= seq![0x80u8]);
    lemma_string_header(bytes, rest);
}

/// A list is measured whatever follows it.
proof fn lemma_list_header(payload: Seq<u8>, rest: Seq<u8>)
    requires
        payload.len() <= usize::MAX,
    ensures
        header_of(rlp_list(payload) + rest) matches Ok(header) && header.list
            && header.payload_length == payload.len() && (rlp_list(payload) + rest).subrange(
            header.skipped as int,
            (header.skipped + header.payload_length) as int,
        ) == payload,
{
    let header = rlp_header(EMPTY_LIST_CODE, payload.len());
    lemma_header_read(true, payload.len(), payload + rest);
    assert(rlp_list(payload) + rest =~= header + (payload + rest));
    lemma_header_fits(payload.len() as usize);
    assert((header + (payload + rest)).subrange(
        header.len() as int,
        (header.len() + payload.len()) as int,
    ) =~= payload);
}

/// What follows the list a node is written as is not looked at.
pub proof fn law_bytes_behind_a_node(payload: Seq<u8>, rest: Seq<u8>)
    requires
        payload.len() <= usize::MAX,
    ensures
        node_of(rlp_list(payload) + rest) == node_of(rlp_list(payload)),
        list_payload_of(rlp_list(payload) + rest) == Ok::<Seq<u8>, PathError>(payload),
        item_len(rlp_list(payload) + rest) == Ok::<nat, PathError>(rlp_list(payload).len()),
{
    lemma_list_header(payload, rest);
    lemma_list_read(payload);
    reveal(node_of);
}

/// Bytes that are no RLP are refused as what they are, wherever they are met: as a node, as an item,
/// and as the next item of a node.
pub proof fn law_no_rlp(
    nodes: Map<[u8; 32], Seq<u8>>,
    first: Seq<u8>,
    bytes: Seq<u8>,
    error: alloy_rlp::Error,
)
    requires
        header_of(bytes) == Err::<HeaderView, alloy_rlp::Error>(error),
        whole_item(first),
        first.len() + bytes.len() <= usize::MAX,
    ensures
        node_of(bytes) == Err::<NodeView, PathError>(PathError::Rlp(error)),
        child_of(nodes, bytes) == Err::<Seq<u8>, PathError>(PathError::Rlp(error)),
        list_payload_of(bytes) == Err::<Seq<u8>, PathError>(PathError::Rlp(error)),
        item_len(bytes) == Err::<nat, PathError>(PathError::Rlp(error)),
        node_of(rlp_list(bytes)) == Err::<NodeView, PathError>(PathError::Rlp(error)),
        node_of(rlp_list(first + bytes)) == Err::<NodeView, PathError>(PathError::Rlp(error)),
{
    reveal(node_of);
    reveal(child_of);
    reveal_with_fuel(item_start, 3);
    lemma_list_read(bytes);
    assert(bytes.skip(0) =~= bytes);
    let payload = first + bytes;
    lemma_list_read(payload);
    assert(payload.skip(0) =~= first + bytes);
    assert(item_len(first + bytes) == Ok::<nat, PathError>(first.len()));
    assert(payload.skip(first.len() as int) =~= bytes);
}

/// The child of a branch is what its item at that nibble leads to, whatever its other items hold and
/// whatever follows, and one at or past bytes that are no item is refused as they are.
pub proof fn law_branch_child(
    nodes: Map<[u8; 32], Seq<u8>>,
    items: Seq<Seq<u8>>,
    rest: Seq<u8>,
    nibble: u8,
)
    requires
        forall|i: int| 0 <= i < items.len() ==> whole_item(#[trigger] items[i]),
    ensures
        nibble < items.len() ==> branch_child(nodes, joined(items, items.len()) + rest, nibble)
            == child_of(nodes, items[nibble as int]),
        nibble >= items.len() ==> (header_of(rest) matches Err(error) ==> branch_child(
            nodes,
            joined(items, items.len()) + rest,
            nibble,
        ) == Err::<Seq<u8>, PathError>(PathError::Rlp(error))),
{
    let payload = joined(items, items.len()) + rest;
    if nibble < items.len() {
        lemma_item_starts(items, rest, items.len(), nibble as nat);
        lemma_item_starts(items, rest, items.len(), (nibble + 1) as nat);
    } else {
        lemma_item_starts(items, rest, items.len(), items.len());
        assert(payload.skip(joined(items, items.len()).len() as int) =~= rest);
        if header_of(rest) is Err {
            assert(item_start(payload, items.len() + 1) is Err);
            lemma_item_start_fails(payload, items.len() + 1, (nibble + 1) as nat);
        }
    }
}

/// The children of a branch are its first sixteen items, where none of them is wider than a reference,
/// the item behind them is an empty string and nothing follows that.
pub proof fn law_branch_items(items: Seq<Seq<u8>>, rest: Seq<u8>)
    requires
        items.len() == 17,
        forall|i: int| 0 <= i < items.len() ==> whole_item(#[trigger] items[i]),
    ensures
        branch_items(joined(items, 17) + rest) == if exists|i: int|
            0 <= i < 16 && (#[trigger] items[i]).len() > 33 {
            Err(PathError::OversizedItem)
        } else if items[16] != seq![0x80u8] {
            Err(PathError::ValueInBranch)
        } else if rest.len() > 0 {
            Err(PathError::Rlp(alloy_rlp::Error::UnexpectedLength))
        } else {
            Ok(items.take(16))
        },
{
    let payload = joined(items, 17) + rest;
    lemma_items_before(items, rest, 16);
    lemma_item_starts(items, rest, 17, 16);
    lemma_item_starts(items, rest, 17, 17);
    assert(joined(items, 17).len() == joined(items, 16).len() + items[16].len());
}

/// A branch whose items run into bytes that are no item is refused as they are, unless one ahead of
/// them is wider than a reference.
pub proof fn law_broken_branch_items(items: Seq<Seq<u8>>, rest: Seq<u8>, error: alloy_rlp::Error)
    requires
        items.len() <= 16,
        forall|i: int| 0 <= i < items.len() ==> whole_item(#[trigger] items[i]),
        header_of(rest) == Err::<HeaderView, alloy_rlp::Error>(error),
    ensures
        branch_items(joined(items, items.len()) + rest) == if exists|i: int|
            0 <= i < items.len() && (#[trigger] items[i]).len() > 33 {
            Err::<Seq<Seq<u8>>, PathError>(PathError::OversizedItem)
        } else {
            Err(PathError::Rlp(error))
        },
{
    let payload = joined(items, items.len()) + rest;
    let count = items.len();
    lemma_items_before(items, rest, count);
    lemma_item_starts(items, rest, count, count);
    assert(payload.skip(joined(items, count).len() as int) =~= rest);
    assert(item_start(payload, count + 1) == Err::<nat, PathError>(PathError::Rlp(error)));
    lemma_item_start_fails(payload, count + 1, 17);
    if count < 16 {
        assert(items_until(payload, count + 1) is Err);
        lemma_items_until_fails(payload, count + 1, 16);
    }
}

/// The first items of a payload are read one after another until one is wider than a reference,
/// whatever follows them.
proof fn lemma_items_before(items: Seq<Seq<u8>>, rest: Seq<u8>, count: nat)
    requires
        count <= 16,
        count <= items.len(),
        forall|i: int| 0 <= i < items.len() ==> whole_item(#[trigger] items[i]),
    ensures
        items_until(joined(items, items.len()) + rest, count) == if exists|i: int|
            0 <= i < count && (#[trigger] items[i]).len() > 33 {
            Err(PathError::OversizedItem)
        } else {
            Ok(items.take(count as int))
        },
    decreases count,
{
    if count == 0 {
        assert(items.take(0) =~= Seq::empty());
    } else {
        let before = (count - 1) as nat;
        lemma_items_before(items, rest, before);
        lemma_item_starts(items, rest, items.len(), before);
        lemma_item_starts(items, rest, items.len(), count);
        assert(joined(items, count).len() == joined(items, before).len()
            + items[before as int].len());
        assert(items.take(before as int).push(items[before as int]) =~= items.take(count as int));
        if exists|i: int| 0 <= i < before && (#[trigger] items[i]).len() > 33 {
            let i = choose|i: int| 0 <= i < before && (#[trigger] items[i]).len() > 33;
            assert(items[i].len() > 33);
        } else if items[before as int].len() > 33 {
            assert(items[before as int].len() > 33);
        }
    }
}

/// Where a read goes from each kind of node. A leaf answers the key whose nibbles it holds and no
/// other, an extension hands the key on to its child where it starts with its path, a branch hands it
/// on under its first nibble, and a node that cannot be read or found ends it.
pub proof fn law_read_steps(nodes: Map<[u8; 32], Seq<u8>>, node_rlp: Seq<u8>, key: Seq<u8>)
    ensures
        walked(nodes, seq![0x80u8], key) == Ok::<Option<Seq<u8>>, PathError>(None),
        node_rlp != seq![0x80u8] ==> (node_of(node_rlp) matches Err(error) ==> walked(
            nodes,
            node_rlp,
            key,
        ) == Err::<Option<Seq<u8>>, PathError>(error)),
        node_rlp != seq![0x80u8] ==> (node_of(node_rlp) matches Ok(NodeView::Leaf { path, value }) ==> walked(
            nodes,
            node_rlp,
            key,
        ) == Ok::<Option<Seq<u8>>, PathError>(
            if path_of(path) == key {
                Some(value)
            } else {
                None
            },
        )),
        node_rlp != seq![0x80u8] ==> (node_of(node_rlp) matches Ok(
            NodeView::Extension { path, child },
        ) ==> {
            let held = path_of(path);
            let follows = 0 < held.len() <= key.len() && forall|i: int|
                0 <= i < held.len() ==> #[trigger] held[i] == key[i];
            &&& !follows ==> walked(nodes, node_rlp, key) == Ok::<Option<Seq<u8>>, PathError>(None)
            &&& follows ==> match child_of(nodes, child) {
                Err(error) => walked(nodes, node_rlp, key) == Err::<Option<Seq<u8>>, PathError>(
                    error,
                ),
                Ok(child_rlp) => walked(nodes, node_rlp, key) == walked(
                    nodes,
                    child_rlp,
                    key.subrange(held.len() as int, key.len() as int),
                ),
            }
        }),
        node_rlp != seq![0x80u8] ==> (node_of(node_rlp) matches Ok(NodeView::Branch { payload }) ==> {
            &&& key.len() == 0 ==> walked(nodes, node_rlp, key) == Err::<
                Option<Seq<u8>>,
                PathError,
            >(PathError::ValueInBranch)
            &&& key.len() > 0 ==> match branch_child(nodes, payload, key[0]) {
                Err(error) => walked(nodes, node_rlp, key) == Err::<Option<Seq<u8>>, PathError>(
                    error,
                ),
                Ok(child_rlp) => walked(nodes, node_rlp, key) == walked(
                    nodes,
                    child_rlp,
                    key.subrange(1, key.len() as int),
                ),
            }
        }),
{
    if node_rlp != seq![0x80u8] {
        match node_of(node_rlp) {
            Ok(NodeView::Extension { path, child }) => {
                let held = path_of(path);
                if 0 < held.len() <= key.len() {
                    let front = key.subrange(0, held.len() as int);
                    if forall|i: int| 0 <= i < held.len() ==> #[trigger] held[i] == key[i] {
                        assert(front =~= held);
                    } else {
                        let i = choose|i: int| 0 <= i < held.len() && #[trigger] held[i] != key[i];
                        assert(front[i] == key[i]);
                    }
                    assert(key.skip(held.len() as int) =~= key.subrange(
                        held.len() as int,
                        key.len() as int,
                    ));
                }
            },
            Ok(NodeView::Branch { payload }) => {
                if key.len() > 0 {
                    assert(key.skip(1) =~= key.subrange(1, key.len() as int));
                }
            },
            _ => {},
        }
    }
}

/// Where a read starts: nowhere in a trie that holds nothing, and at the node the witness holds under
/// the root otherwise.
pub proof fn law_read_starts(nodes: Map<[u8; 32], Seq<u8>>, root: [u8; 32], key: Seq<u8>)
    ensures
        root == keccak(seq![0x80u8]) ==> trie_read(nodes, root, key) == Ok::<
            Option<Seq<u8>>,
            PathError,
        >(None),
        root != keccak(seq![0x80u8]) && !nodes.contains_key(root) ==> trie_read(nodes, root, key)
            == Err::<Option<Seq<u8>>, PathError>(PathError::NodeNotResolved(root)),
        root != keccak(seq![0x80u8]) && nodes.contains_key(root) ==> trie_read(nodes, root, key)
            == walked(nodes, nodes[root], key),
{
}

/// An account is what is read under its hashed address taken for one, and a slot what is read in its
/// storage taken for a word. What cannot be read or taken for one is refused, and what is not there is
/// no account and the word that is zero.
pub proof fn law_reads_decode(
    nodes: Map<[u8; 32], Seq<u8>>,
    root: [u8; 32],
    hashed_address: [u8; 32],
    hashed_slot: [u8; 32],
)
    ensures
        match trie_read(nodes, root, unpacked(hashed_address@)) {
            Err(error) => {
                &&& account_read(nodes, root, hashed_address) == Err::<
                    Option<TrieAccount>,
                    PathError,
                >(error)
                &&& storage_read(nodes, root, hashed_address, hashed_slot) == Err::<
                    [u8; 32],
                    PathError,
                >(error)
            },
            Ok(None) => {
                &&& account_read(nodes, root, hashed_address) == Ok::<
                    Option<TrieAccount>,
                    PathError,
                >(None)
                &&& storage_read(nodes, root, hashed_address, hashed_slot) matches Ok(word)
                    && forall|k: int| 0 <= k < 32 ==> #[trigger] word@[k] == 0
            },
            Ok(Some(value)) => match account_of_rlp(value) {
                Err(error) => {
                    &&& account_read(nodes, root, hashed_address) == Err::<
                        Option<TrieAccount>,
                        PathError,
                    >(PathError::Rlp(error))
                    &&& storage_read(nodes, root, hashed_address, hashed_slot) == Err::<
                        [u8; 32],
                        PathError,
                    >(PathError::Rlp(error))
                },
                Ok(account) => {
                    &&& account_read(nodes, root, hashed_address) == Ok::<
                        Option<TrieAccount>,
                        PathError,
                    >(Some(account))
                    &&& match trie_read(nodes, account.storage_root, unpacked(hashed_slot@)) {
                        Err(error) => storage_read(nodes, root, hashed_address, hashed_slot)
                            == Err::<[u8; 32], PathError>(error),
                        Ok(None) => storage_read(nodes, root, hashed_address, hashed_slot) matches Ok(
                            word,
                        ) && forall|k: int| 0 <= k < 32 ==> #[trigger] word@[k] == 0,
                        Ok(Some(slot)) => match word_of(slot) {
                            Err(error) => storage_read(nodes, root, hashed_address, hashed_slot)
                                == Err::<[u8; 32], PathError>(PathError::Rlp(error)),
                            Ok(word) => storage_read(nodes, root, hashed_address, hashed_slot)
                                == Ok::<[u8; 32], PathError>(word),
                        },
                    }
                },
            },
        },
{
    law_zero_word(zero_word());
}

} // verus!
