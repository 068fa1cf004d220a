//! Reading back the nodes a canonical trie is written in.

use vstd::prelude::*;

use crate::descent::child_of;
use crate::encode::{
    branch_rlp, extension_rlp, joined, leaf_rlp, lemma_branch_len, lemma_header_fits,
    lemma_leaf_len, narrow_items, reference_of,
};
use crate::error::PathError;
use crate::keccak::{keccak, lemma_digest_of};
use crate::nibbles::{hex_prefix, is_path, law_hex_prefix_round_trip, path_of, MAX_NIBBLES};
use crate::node::{
    branch_items, empty_rlp, item_len, item_start, items_until, list_payload_of, node_of,
    node_of_payload, NodeView, DIGEST_LEN, MAX_ITEM, MAX_LEAF_VALUE,
};
use crate::rlp::{
    be_bytes, be_value, header_len, header_of, rlp_header, rlp_list, rlp_string, string_of,
    HeaderView, EMPTY_LIST_CODE, EMPTY_STRING_CODE,
};

verus! {

/// A number is read back from the bytes it is written in.
pub proof fn lemma_be_round_trip(value: nat)
    ensures
        be_value(be_bytes(value)) == value,
        value > 0 ==> be_bytes(value).len() > 0 && be_bytes(value)[0] != 0,
    decreases value,
{
    if value > 0 {
        lemma_be_round_trip(value / 256);
        let bytes = be_bytes(value);
        assert(bytes.drop_last() =~= be_bytes(value / 256));
        if value / 256 == 0 {
            assert(bytes[0] == value as u8);
        } else {
            assert(bytes[0] == be_bytes(value / 256)[0]);
        }
    }
}

/// A number of a machine word takes no more bytes than one.
pub proof fn lemma_be_len(value: nat)
    requires
        value <= u64::MAX,
    ensures
        be_bytes(value).len() <= 8,
{
    reveal_with_fuel(be_bytes, 9);
}

/// A header is read back from the front of what it announces.
pub proof fn lemma_header_read(list: bool, payload_length: nat, tail: Seq<u8>)
    requires
        payload_length <= tail.len(),
        payload_length <= usize::MAX,
        !list && payload_length == 1 ==> tail[0] >= 0x80,
    ensures
        ({
            let base = if list { EMPTY_LIST_CODE } else { EMPTY_STRING_CODE };
            header_of(rlp_header(base, payload_length) + tail) == Ok::<HeaderView, alloy_rlp::Error>(
                HeaderView { list, payload_length, skipped: header_len(payload_length) },
            )
        }),
        header_len(payload_length) <= 9,
        payload_length < 65536 ==> header_len(payload_length) <= 3,
{
    let base = if list { EMPTY_LIST_CODE } else { EMPTY_STRING_CODE };
    let header = rlp_header(base, payload_length);
    let buf = header + tail;
    assert(buf[0] == header[0]);
    if payload_length < 56 {
        if payload_length == 1 {
            assert(buf[1] == tail[0]);
        }
    } else {
        let size = be_bytes(payload_length).len();
        lemma_be_round_trip(payload_length);
        lemma_header_fits(payload_length as usize);
        assert(payload_length < 65536 ==> size <= 2) by {
            reveal_with_fuel(be_bytes, 3);
        }
        assert(buf.subrange(1, 1 + size as int) =~= be_bytes(payload_length));
        assert(buf[1] == be_bytes(payload_length)[0]);
    }
}

/// Whether an item is told by its own front, whatever follows it.
pub open spec fn whole_item(item: Seq<u8>) -> bool {
    forall|rest: Seq<u8>|
        item_len(#[trigger] (item + rest)) == Ok::<nat, PathError>(item.len())
}

/// A list is told by its own front, and so is what it holds.
pub proof fn lemma_list_read(payload: Seq<u8>)
    requires
        payload.len() <= usize::MAX,
    ensures
        whole_item(rlp_list(payload)),
        list_payload_of(rlp_list(payload)) == Ok::<Seq<u8>, PathError>(payload),
        header_of(rlp_list(payload)) is Ok,
        header_of(rlp_list(payload))->Ok_0.list,
{
    let list = rlp_list(payload);
    let header = rlp_header(EMPTY_LIST_CODE, payload.len());
    assert forall|rest: Seq<u8>| item_len(#[trigger] (list + rest)) == Ok::<nat, PathError>(
        list.len(),
    ) by {
        lemma_header_read(true, payload.len(), payload + rest);
        assert(list + rest =~= header + (payload + rest));
    }
    lemma_header_read(true, payload.len(), payload);
    assert(list =~= header + payload);
    assert(list.subrange(header.len() as int, list.len() as int) =~= payload);
}

/// A string is told by its own front, and so is what it holds.
pub proof fn lemma_string_read(bytes: Seq<u8>, rest: Seq<u8>)
    requires
        bytes.len() <= usize::MAX,
    ensures
        string_of(rlp_string(bytes) + rest) == Ok::<Seq<u8>, alloy_rlp::Error>(bytes),
        item_len(rlp_string(bytes) + rest) == Ok::<nat, PathError>(rlp_string(bytes).len()),
{
    let item = rlp_string(bytes);
    if bytes.len() == 1 && bytes[0] < EMPTY_STRING_CODE {
        assert((item + rest)[0] == bytes[0]);
        assert((item + rest).subrange(0, 1) =~= bytes);
    } else {
        let header = rlp_header(EMPTY_STRING_CODE, bytes.len());
        lemma_header_read(false, bytes.len(), bytes + rest);
        assert(item + rest =~= header + (bytes + rest));
        assert((item + rest).subrange(header.len() as int, (header.len() + bytes.len()) as int)
            =~= bytes);
    }
}

/// The items of a payload written one after another start where the ones before them end.
pub proof fn lemma_item_starts(items: Seq<Seq<u8>>, rest: Seq<u8>, count: nat, index: nat)
    requires
        index <= count <= items.len(),
        forall|i: int| 0 <= i < items.len() ==> whole_item(#[trigger] items[i]),
    ensures
        item_start(joined(items, count) + rest, index) == Ok::<nat, PathError>(
            joined(items, index).len(),
        ),
        joined(items, index).len() <= joined(items, count).len(),
        index < count ==> (joined(items, count) + rest).subrange(
            joined(items, index).len() as int,
            (joined(items, index).len() + items[index as int].len()) as int,
        ) == items[index as int],
    decreases index,
{
    let payload = joined(items, count) + rest;
    lemma_joined_front(items, count, index);
    if index > 0 {
        let before = (index - 1) as nat;
        lemma_item_starts(items, rest, count, before);
        let start = joined(items, before).len() as int;
        let item = items[before as int];
        lemma_joined_front(items, count, before);
        let tail = payload.skip(start + item.len());
        assert(payload.skip(start) =~= item + tail) by {
            assert(payload.subrange(start, start + item.len()) == item);
        }
        assert(whole_item(item));
        assert(item_len(item + tail) == Ok::<nat, PathError>(item.len()));
    }
    if index < count {
        let start = joined(items, index).len() as int;
        let item = items[index as int];
        lemma_joined_front(items, count, index + 1);
        assert(payload.subrange(start, start + item.len()) =~= item) by {
            let through = joined(items, index + 1);
            assert(through =~= joined(items, index) + item);
            assert(payload.subrange(0, through.len() as int) =~= through);
            assert forall|i: int| 0 <= i < item.len() implies #[trigger] payload.subrange(
                start,
                start + item.len(),
            )[i] == item[i] by {
                assert(payload.subrange(0, through.len() as int)[start + i] == through[start + i]);
            }
        }
    }
}

/// A run of items is what a longer run of them starts with.
proof fn lemma_joined_front(items: Seq<Seq<u8>>, count: nat, index: nat)
    requires
        index <= count,
    ensures
        joined(items, index).len() <= joined(items, count).len(),
        joined(items, count).subrange(0, joined(items, index).len() as int) == joined(
            items,
            index,
        ),
    decreases count,
{
    if index < count {
        lemma_joined_front(items, (count - 1) as nat, index);
        let shorter = joined(items, (count - 1) as nat);
        assert(joined(items, count).subrange(0, joined(items, index).len() as int)
            =~= shorter.subrange(0, joined(items, index).len() as int));
    } else {
        assert(joined(items, count).subrange(0, joined(items, count).len() as int) =~= joined(
            items,
            count,
        ));
    }
}

/// A leaf is read back whole.
pub proof fn law_leaf_round_trip(path: Seq<u8>, value: Seq<u8>)
    requires
        is_path(path),
        path.len() <= MAX_NIBBLES,
        value.len() <= MAX_LEAF_VALUE,
    ensures
        node_of(leaf_rlp(path, value)) == Ok::<NodeView, PathError>(
            NodeView::Leaf { path: hex_prefix(path, true), value },
        ),
        path_of(hex_prefix(path, true)) == path,
{
    reveal(node_of);
    reveal_with_fuel(item_start, 3);
    let encoded = hex_prefix(path, true);
    let (first, second) = (rlp_string(encoded), rlp_string(value));
    let payload = first + second;
    law_hex_prefix_round_trip(path, true);
    lemma_leaf_len(path, value);
    lemma_list_read(payload);
    lemma_string_read(encoded, second);
    lemma_string_read(encoded, Seq::empty());
    lemma_string_read(value, Seq::empty());
    assert(payload.skip(0) =~= payload);
    assert(payload.skip(first.len() as int) =~= second + Seq::empty());
    assert(payload.subrange(0, first.len() as int) =~= first + Seq::empty());
    assert(payload.subrange(first.len() as int, payload.len() as int) =~= second + Seq::empty());
}

/// An extension is read back whole.
pub proof fn law_extension_round_trip(path: Seq<u8>, item: Seq<u8>)
    requires
        is_path(path),
        0 < path.len() <= MAX_NIBBLES,
        item.len() <= MAX_ITEM,
        whole_item(item),
    ensures
        node_of(extension_rlp(path, item)) == Ok::<NodeView, PathError>(
            NodeView::Extension { path: hex_prefix(path, false), child: item },
        ),
        path_of(hex_prefix(path, false)) == path,
{
    reveal(node_of);
    reveal_with_fuel(item_start, 3);
    let encoded = hex_prefix(path, false);
    let first = rlp_string(encoded);
    let payload = first + item;
    law_hex_prefix_round_trip(path, false);
    lemma_list_read(payload);
    lemma_string_read(encoded, item);
    lemma_string_read(encoded, Seq::empty());
    assert(payload.skip(0) =~= payload);
    assert(payload.skip(first.len() as int) =~= item + Seq::empty());
    assert(item_len(item + Seq::empty()) == Ok::<nat, PathError>(item.len()));
    assert(payload.subrange(0, first.len() as int) =~= first + Seq::empty());
    assert(payload.subrange(first.len() as int, payload.len() as int) =~= item);
    if path.len() == 1 {
        assert(path[0] < 16);
        assert(encoded[0] == 0x10 + path[0]);
    }
}

/// Whether every item is one a parent references a child through.
pub open spec fn whole_items(items: Seq<Seq<u8>>) -> bool {
    &&& narrow_items(items)
    &&& forall|i: int| 0 <= i < 16 ==> whole_item(#[trigger] items[i])
}

/// What a branch over `items` holds behind its header.
pub open spec fn branch_payload(items: Seq<Seq<u8>>) -> Seq<u8> {
    joined(items, 16) + empty_rlp()
}

/// Where an item of a branch starts and ends.
proof fn lemma_item_span(items: Seq<Seq<u8>>, n: nat)
    requires
        whole_items(items),
        n < 16,
    ensures
        item_start(branch_payload(items), n) == Ok::<nat, PathError>(joined(items, n).len()),
        item_start(branch_payload(items), n + 1) == Ok::<nat, PathError>(joined(items, n + 1).len()),
        branch_payload(items).subrange(
            joined(items, n).len() as int,
            joined(items, n + 1).len() as int,
        ) == items[n as int],
{
    lemma_item_starts(items, empty_rlp(), 16, n);
    lemma_item_starts(items, empty_rlp(), 16, n + 1);
}

/// The value slot of a branch is where its items end, and ends it.
proof fn lemma_value_slot(items: Seq<Seq<u8>>)
    requires
        whole_items(items),
    ensures
        item_start(branch_payload(items), 16) == Ok::<nat, PathError>(joined(items, 16).len()),
        item_start(branch_payload(items), 17) == Ok::<nat, PathError>(branch_payload(items).len()),
        branch_payload(items).subrange(
            joined(items, 16).len() as int,
            branch_payload(items).len() as int,
        ) == empty_rlp(),
{
    let payload = branch_payload(items);
    let end = joined(items, 16).len() as int;
    lemma_item_starts(items, empty_rlp(), 16, 16);
    assert(payload.skip(end) =~= empty_rlp());
    assert(header_of(empty_rlp()) == Ok::<HeaderView, alloy_rlp::Error>(
        HeaderView { list: false, payload_length: 0, skipped: 1 },
    ));
    assert(payload.subrange(end, payload.len() as int) =~= empty_rlp());
}

/// The items of a branch are read back whole.
proof fn lemma_branch_read(items: Seq<Seq<u8>>)
    requires
        whole_items(items),
    ensures
        branch_items(branch_payload(items)) == Ok::<Seq<Seq<u8>>, PathError>(items),
{
    lemma_items_read(items, 16);
    lemma_value_slot(items);
}

/// A branch is told from the other nodes by its third item.
proof fn lemma_branch_kind(items: Seq<Seq<u8>>)
    requires
        whole_items(items),
    ensures
        node_of(branch_rlp(items)) == Ok::<NodeView, PathError>(
            NodeView::Branch { payload: branch_payload(items) },
        ),
{
    let payload = branch_payload(items);
    lemma_branch_len(items);
    lemma_list_read(payload);
    lemma_item_span(items, 0);
    lemma_item_span(items, 1);
    lemma_item_starts(items, empty_rlp(), 16, 2);
    assert(node_of(branch_rlp(items)) == node_of_payload(payload)) by {
        reveal(node_of);
    }
}

/// A branch is read back whole, and so is each of its items.
pub proof fn law_branch_round_trip(items: Seq<Seq<u8>>)
    requires
        whole_items(items),
    ensures
        node_of(branch_rlp(items)) == Ok::<NodeView, PathError>(
            NodeView::Branch { payload: branch_payload(items) },
        ),
        branch_items(branch_payload(items)) == Ok::<Seq<Seq<u8>>, PathError>(items),
        forall|n: u8|
            n < 16 ==> {
                &&& #[trigger] item_start(branch_payload(items), n as nat) == Ok::<nat, PathError>(
                    joined(items, n as nat).len(),
                )
                &&& item_start(branch_payload(items), (n + 1) as nat) == Ok::<nat, PathError>(
                    joined(items, (n + 1) as nat).len(),
                )
                &&& branch_payload(items).subrange(
                    joined(items, n as nat).len() as int,
                    joined(items, (n + 1) as nat).len() as int,
                ) == items[n as int]
            },
{
    let payload = branch_payload(items);
    lemma_branch_kind(items);
    lemma_branch_read(items);
    assert forall|n: u8| n < 16 implies {
        &&& #[trigger] item_start(payload, n as nat) == Ok::<nat, PathError>(
            joined(items, n as nat).len(),
        )
        &&& item_start(payload, (n + 1) as nat) == Ok::<nat, PathError>(
            joined(items, (n + 1) as nat).len(),
        )
        &&& payload.subrange(
            joined(items, n as nat).len() as int,
            joined(items, (n + 1) as nat).len() as int,
        ) == items[n as int]
    } by {
        lemma_item_span(items, n as nat);
    }
}

/// The first items of a branch are read back whole.
proof fn lemma_items_read(items: Seq<Seq<u8>>, count: nat)
    requires
        whole_items(items),
        count <= 16,
    ensures
        items_until(branch_payload(items), count) == Ok::<Seq<Seq<u8>>, PathError>(
            items.subrange(0, count as int),
        ),
        count == 16 ==> items.subrange(0, 16) == items,
    decreases count,
{
    if count > 0 {
        let before = (count - 1) as nat;
        lemma_items_read(items, before);
        lemma_item_starts(items, empty_rlp(), 16, before);
        lemma_item_starts(items, empty_rlp(), 16, count);
        assert(items[before as int].len() <= MAX_ITEM);
        assert(joined(items, count).len() == joined(items, before).len()
            + items[before as int].len());
        assert(items.subrange(0, before as int).push(items[before as int]) =~= items.subrange(
            0,
            count as int,
        ));
    } else {
        assert(items.subrange(0, 0) =~= Seq::empty());
    }
    if count == 16 {
        assert(items.subrange(0, 16) =~= items);
    }
}

/// Whether a node is written the way a trie writes its own: the empty node, or a list no wider than
/// a branch.
pub open spec fn is_node(node_rlp: Seq<u8>) -> bool {
    ||| node_rlp == empty_rlp()
    ||| exists|payload: Seq<u8>|
        #![trigger rlp_list(payload)]
        node_rlp == rlp_list(payload) && payload.len() < 65536
}

/// A node is referenced through a whole item no wider than a digest behind its header, and that
/// item leads back to the node: at once where it sits in place, through the witness where it does
/// not.
pub proof fn law_reference_leads_back(nodes: Map<[u8; 32], Seq<u8>>, node_rlp: Seq<u8>)
    requires
        is_node(node_rlp),
    ensures
        whole_item(reference_of(node_rlp)),
        reference_of(node_rlp).len() <= MAX_ITEM,
        reference_of(node_rlp) == empty_rlp() <==> node_rlp == empty_rlp(),
        node_rlp.len() < DIGEST_LEN ==> child_of(nodes, reference_of(node_rlp)) == Ok::<
            Seq<u8>,
            PathError,
        >(node_rlp),
        node_rlp.len() >= DIGEST_LEN && nodes.contains_key(keccak(node_rlp)) ==> child_of(
            nodes,
            reference_of(node_rlp),
        ) == Ok::<Seq<u8>, PathError>(nodes[keccak(node_rlp)]),
        node_rlp.len() >= DIGEST_LEN && !nodes.contains_key(keccak(node_rlp)) ==> child_of(
            nodes,
            reference_of(node_rlp),
        ) == Err::<Seq<u8>, PathError>(PathError::NodeNotResolved(keccak(node_rlp))),
{
    reveal(child_of);
    let item = reference_of(node_rlp);
    assert(empty_rlp().len() == 1);
    if node_rlp.len() < DIGEST_LEN {
        if node_rlp == empty_rlp() {
            assert forall|rest: Seq<u8>| item_len(#[trigger] (item + rest)) == Ok::<nat, PathError>(
                item.len(),
            ) by {
                assert((item + rest)[0] == 0x80);
            }
        } else {
            let payload = choose|payload: Seq<u8>|
                #![trigger rlp_list(payload)]
                node_rlp == rlp_list(payload) && payload.len() < 65536;
            lemma_list_read(payload);
        }
    } else {
        let digest = keccak(node_rlp);
        assert forall|rest: Seq<u8>| item_len(#[trigger] (item + rest)) == Ok::<nat, PathError>(
            item.len(),
        ) by {
            assert((item + rest)[0] == 0xa0);
        }
        assert(item[0] == 0xa0);
        assert(item.subrange(1, 33) =~= digest@);
        lemma_digest_of(digest);
    }
}

} // verus!
