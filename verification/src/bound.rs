//! The bound on the scratch is reached: a witness that puts one extension over an entire key, and
//! keys that leave it at every nibble, make each frame of the descent hold all it is charged for. A
//! canonical trie has no such extension, so what a descent of one holds is bounded closer, and one
//! over all but the last nibble reaches that bound.

use vstd::prelude::*;

use crate::canonical::{
    branch_payload, is_node, law_branch_round_trip, law_extension_round_trip, law_leaf_round_trip,
    law_reference_leads_back, whole_item, whole_items,
};
use crate::descent::{
    absent_items, child_at, child_of, children_run, children_updated, closed_branch,
    collapse_reaches_built, lemma_agreed_is, lemma_branch_many, lemma_children_run,
    lemma_children_updated, lemma_extension_parts, lemma_split_extension, lemma_updated,
    lone_removal, node_under_of, residual_child, residual_item, updated,
};
use crate::encode::{
    branch_rlp, digest_item, extension_rlp, joined, leaf_rlp, lemma_branch_len, lemma_extension_len,
    lemma_leaf_len, lemma_list_filled, narrow_items, reference_of,
};
use crate::error::PathError;
use crate::floor::{
    branch_floor, floor_of, lemma_branch_floor, lemma_floor_of, lemma_run_floor, lemma_split_floor,
    run_taken,
};
use crate::keccak::{empty_root, keccak};
use crate::laws::{commits, holds_trie};
use crate::nibbles::{hex_prefix, is_path, MAX_NIBBLES};
use crate::node::{
    empty_rlp, filled_of, only_filled, DIGEST_LEN, MAX_BRANCH_RLP, MAX_ITEM, MAX_LEAF_VALUE,
};
use crate::outcome::{complete, faithful, lemma_child_read, node_at_path, Reach};
use crate::path::{root_ceiling, root_floor, updated_root};
use crate::recorded::{
    lemma_recordable_below, lemma_trie_branch, lemma_trie_extension, lemma_trie_node, recordable,
};
use crate::rlp::{rlp_list, rlp_string};
use crate::room::lemma_trie_leaves_room;
use crate::stack::{
    descent_bytes, law_stack_len_is_derived, lemma_branch_carry, lemma_descent_bytes,
    lemma_header_len, path_bytes, BRANCH_CARRY, FRAME_TAIL, STACK_LEN,
};
use crate::trie::{
    all_start_with, below, branch_under_rlp, entry, has_removal, is_single, is_split, keyed,
    lemma_below_below, lemma_below_nothing, lemma_trie_empty, lemma_trie_items, lemma_trie_leaf,
    no_keys, only_key, overlay, parts, starts_with, the_key, trie_items, trie_rlp, written,
};

verus! {

/// A path of `len` nibbles that are all the last there is.
pub open spec fn spine(len: nat) -> Seq<u8> {
    Seq::new(len, |i: int| 15u8)
}

/// Whether the changes write one key alone, with a value too long for its leaf to sit in place.
pub open spec fn writes_one(changes: Map<Seq<u8>, Option<Seq<u8>>>) -> bool {
    &&& is_single(changes)
    &&& changes[the_key(changes)] matches Some(value) && DIGEST_LEN <= value.len() <= MAX_LEAF_VALUE
}

/// Whether the changes leave the spine at every nibble, fifteen keys written beside it there, and
/// remove the key the spine itself holds.
pub open spec fn leaves_spine(changes: Map<Seq<u8>, Option<Seq<u8>>>, len: nat) -> bool
    decreases len,
{
    if len == 0 {
        lone_removal(changes) && the_key(changes) == Seq::<u8>::empty()
    } else {
        &&& keyed(changes, len)
        &&& forall|n: u8| n < 15 ==> writes_one(#[trigger] below(changes, seq![n]))
        &&& leaves_spine(below(changes, seq![15u8]), (len - 1) as nat)
    }
}

/// Whether the witness holds a leaf at the end of a whole key, too long to sit in place.
pub open spec fn holds_end(nodes: Map<[u8; 32], Seq<u8>>, value: Seq<u8>) -> bool {
    let leaf = leaf_rlp(Seq::empty(), value);
    &&& DIGEST_LEN <= value.len() <= MAX_LEAF_VALUE
    &&& nodes.contains_key(keccak(leaf))
    &&& nodes[keccak(leaf)] == leaf
}

/// The extension that spends the nibbles a key has left, over that leaf.
pub open spec fn spending(len: nat, value: Seq<u8>) -> Seq<u8> {
    extension_rlp(spine(len), digest_item(keccak(leaf_rlp(Seq::empty(), value))))
}

/// A leaf of a long value is referenced by hash.
proof fn lemma_long_leaf(key: Seq<u8>, value: Seq<u8>)
    requires
        is_path(key),
        key.len() <= MAX_NIBBLES,
        DIGEST_LEN <= value.len() <= MAX_LEAF_VALUE,
    ensures
        DIGEST_LEN <= leaf_rlp(key, value).len() <= MAX_BRANCH_RLP,
        leaf_rlp(key, value) != empty_rlp(),
        reference_of(leaf_rlp(key, value)) == digest_item(keccak(leaf_rlp(key, value))),
        reference_of(leaf_rlp(key, value)).len() == MAX_ITEM,
        reference_of(leaf_rlp(key, value)) != empty_rlp(),
        is_node(leaf_rlp(key, value)),
{
    lemma_leaf_len(key, value);
    let payload = rlp_string(hex_prefix(key, true)) + rlp_string(value);
    assert(leaf_rlp(key, value) == rlp_list(payload));
    lemma_list_filled(payload);
}

/// Whether a node is a leaf at the end of a whole key, too long to sit in place.
pub open spec fn ends_key(node_rlp: Seq<u8>) -> bool {
    exists|value: Seq<u8>|
        #![trigger leaf_rlp(Seq::empty(), value)]
        node_rlp == leaf_rlp(Seq::empty(), value) && DIGEST_LEN <= value.len() <= MAX_LEAF_VALUE
}

/// Whether one key written at a node leaves a leaf there: one where nothing is, or the leaf at the end
/// of a whole key.
pub open spec fn takes_one(node_rlp: Seq<u8>, len: nat) -> bool {
    node_rlp == empty_rlp() || len == 0 && ends_key(node_rlp)
}

/// Whether the witness holds a branch at the last nibble, and at each of its items a leaf at the end
/// of a whole key.
pub open spec fn holds_ends(nodes: Map<[u8; 32], Seq<u8>>, items: Seq<Seq<u8>>) -> bool {
    &&& whole_items(items)
    &&& reference_of(branch_rlp(items)).len() == MAX_ITEM
    &&& child_of(nodes, reference_of(branch_rlp(items))) == Ok::<Seq<u8>, PathError>(
        branch_rlp(items),
    )
    &&& forall|n: int|
        0 <= n < 16 ==> (child_of(nodes, #[trigger] items[n]) matches Ok(child_rlp) && ends_key(
            child_rlp,
        ))
}

/// Whether the entries are those of the sixteen keys that part at the last nibble of the spine, with
/// values too long for their leaves to sit in place.
pub open spec fn ends_spine(entries: Map<Seq<u8>, Seq<u8>>) -> bool {
    forall|key: Seq<u8>|
        {
            &&& #[trigger] entries.contains_key(key) <==> key.len() == MAX_NIBBLES && is_path(key)
                && starts_with(key, spine((MAX_NIBBLES - 1) as nat))
            &&& entries.contains_key(key) ==> entries[key].len() >= DIGEST_LEN
        }
}

/// Changes that leave the spine are more than one, remove one key and are at every nibble.
proof fn lemma_leaves_spine(changes: Map<Seq<u8>, Option<Seq<u8>>>, len: nat)
    requires
        leaves_spine(changes, len),
    ensures
        has_removal(changes),
        !no_keys(changes),
        len > 0 ==> !is_single(changes),
        len > 0 ==> forall|n: u8| n < 16 ==> !no_keys(#[trigger] below(changes, seq![n])),
        len > 0 ==> all_start_with(changes, Seq::empty()),
        len > 0 ==> !all_start_with(changes, seq![15u8]),
    decreases len,
{
    if len == 0 {
        let key = the_key(changes);
        assert(only_key(changes, key));
        assert(changes.contains_key(key));
    } else {
        let deeper = below(changes, seq![15u8]);
        lemma_leaves_spine(deeper, (len - 1) as nat);
        let removed = choose|key: Seq<u8>| #[trigger] deeper.contains_key(key) && deeper[key] is None;
        assert(changes.contains_key(seq![15u8] + removed));
        assert(changes[seq![15u8] + removed] is None);
        assert forall|n: u8| n < 16 implies !no_keys(#[trigger] below(changes, seq![n])) by {
            if n < 15 {
                let inner = below(changes, seq![n]);
                assert(writes_one(inner));
                assert(only_key(inner, the_key(inner)));
                assert(inner.contains_key(the_key(inner)));
            }
        }
        let (zero, one) = (below(changes, seq![0u8]), below(changes, seq![1u8]));
        let first = seq![0u8] + choose|key: Seq<u8>| zero.contains_key(key);
        let second = seq![1u8] + choose|key: Seq<u8>| one.contains_key(key);
        assert(changes.contains_key(first) && changes.contains_key(second));
        assert(first[0] == 0 && second[0] == 1);
        if is_single(changes) {
            assert(only_key(changes, the_key(changes)));
        }
        assert(first.subrange(0, 1)[0] == 0);
        assert(!starts_with(first, seq![15u8]));
        assert forall|key: Seq<u8>| #[trigger] changes.contains_key(key) implies starts_with(
            key,
            Seq::empty(),
        ) by {
            assert(key.subrange(0, 0) =~= Seq::empty());
        }
    }
}

/// One key written there leaves a leaf.
proof fn lemma_writes_one(
    nodes: Map<[u8; 32], Seq<u8>>,
    node_rlp: Seq<u8>,
    changes: Map<Seq<u8>, Option<Seq<u8>>>,
    len: nat,
)
    requires
        takes_one(node_rlp, len),
        writes_one(changes),
        keyed(changes, len),
        len <= MAX_NIBBLES,
    ensures
        updated(nodes, node_rlp, changes, len) is Ok,
        ({
            let leaf = updated(nodes, node_rlp, changes, len)->Ok_0;
            &&& DIGEST_LEN <= leaf.len() <= MAX_BRANCH_RLP
            &&& reference_of(leaf).len() == MAX_ITEM
            &&& leaf != empty_rlp()
            &&& reference_of(leaf) != empty_rlp()
        }),
{
    let key = the_key(changes);
    assert(only_key(changes, key));
    assert(changes.contains_key(key));
    lemma_updated(nodes, node_rlp, changes, len);
    if node_rlp == empty_rlp() {
        assert(only_key(written(changes), key));
        lemma_trie_leaf(written(changes), len, key);
    } else {
        let value = choose|value: Seq<u8>|
            #![trigger leaf_rlp(Seq::empty(), value)]
            node_rlp == leaf_rlp(Seq::empty(), value) && DIGEST_LEN <= value.len()
                <= MAX_LEAF_VALUE;
        law_leaf_round_trip(Seq::empty(), value);
        let after = overlay(entry(Seq::empty(), value), changes);
        assert(key =~= Seq::empty());
        assert(only_key(after, key));
        lemma_trie_leaf(after, len, key);
    }
    lemma_long_leaf(key, changes[key]->Some_0);
}

/// Whether one key written at any child beside the spine leaves a leaf there.
pub open spec fn beside_takes_one(
    nodes: Map<[u8; 32], Seq<u8>>,
    items: Seq<Seq<u8>>,
    len: nat,
    prebuilt: Option<(u8, Seq<u8>)>,
) -> bool {
    forall|n: u8|
        n < 15 ==> (#[trigger] child_at(nodes, items, prebuilt, n) matches Ok(child_rlp)
            && takes_one(child_rlp, (len - 1) as nat))
}

/// The children beside the spine take a reference each.
proof fn lemma_beside_spine(
    nodes: Map<[u8; 32], Seq<u8>>,
    items: Seq<Seq<u8>>,
    changes: Map<Seq<u8>, Option<Seq<u8>>>,
    len: nat,
    prebuilt: Option<(u8, Seq<u8>)>,
    count: nat,
)
    requires
        0 < len <= MAX_NIBBLES,
        count <= 15,
        items.len() == 16,
        leaves_spine(changes, len),
        beside_takes_one(nodes, items, len, prebuilt),
    ensures
        run_taken(nodes, items, changes, len, prebuilt, count) == MAX_ITEM * count,
        match children_run(nodes, items, changes, len, prebuilt, count) {
            Ok((rebuilt, built)) => {
                &&& rebuilt.len() == 16
                &&& forall|n: int|
                    0 <= n < count ==> (#[trigger] rebuilt[n]).len() == MAX_ITEM && rebuilt[n]
                        != empty_rlp()
                &&& forall|n: int| count <= n < 16 ==> #[trigger] rebuilt[n] == items[n]
                &&& count > 0 && collapse_reaches_built(items, changes) ==> built is Some
            },
            Err(_) => false,
        },
    decreases count,
{
    lemma_children_run(nodes, items, changes, len, prebuilt, 0);
    if count > 0 {
        let before = (count - 1) as nat;
        let n = (count - 1) as u8;
        let inner = below(changes, seq![n]);
        lemma_beside_spine(nodes, items, changes, len, prebuilt, before);
        lemma_children_run(nodes, items, changes, len, prebuilt, n);
        lemma_leaves_spine(changes, len);
        assert(writes_one(inner));
        assert(keyed(inner, (len - 1) as nat)) by {
            assert forall|key: Seq<u8>| #[trigger] inner.contains_key(key) implies key.len() == len - 1
                && is_path(key) by {
                assert(changes.contains_key(seq![n] + key));
                let whole = seq![n] + key;
                assert(key =~= whole.skip(1));
                assert forall|i: int| 0 <= i < key.len() implies key[i] < 16 by {
                    assert(key[i] == whole[i + 1]);
                }
            }
        }
        let child = child_at(nodes, items, prebuilt, n)->Ok_0;
        lemma_writes_one(nodes, child, inner, (len - 1) as nat);
        assert(MAX_ITEM * count == MAX_ITEM * before + MAX_ITEM) by (nonlinear_arith)
            requires
                count == before + 1,
        ;
    }
}

/// The key the spine holds is removed from the leaf at its end, which leaves nothing.
proof fn lemma_end_of_spine(
    nodes: Map<[u8; 32], Seq<u8>>,
    value: Seq<u8>,
    changes: Map<Seq<u8>, Option<Seq<u8>>>,
)
    requires
        leaves_spine(changes, 0),
        DIGEST_LEN <= value.len() <= MAX_LEAF_VALUE,
    ensures
        updated(nodes, leaf_rlp(Seq::empty(), value), changes, 0) == Ok::<Seq<u8>, PathError>(
            empty_rlp(),
        ),
{
    let leaf = leaf_rlp(Seq::empty(), value);
    lemma_long_leaf(Seq::empty(), value);
    law_leaf_round_trip(Seq::empty(), value);
    lemma_updated(nodes, leaf, changes, 0);
    let key = the_key(changes);
    assert(only_key(changes, key));
    assert(changes.contains_key(key));
    let after = overlay(entry(Seq::empty(), value), changes);
    assert(no_keys(after));
    lemma_trie_empty(after, 0);
}

/// Items of which two are there are many.
proof fn lemma_many(items: Seq<Seq<u8>>, left: int, right: int)
    requires
        items.len() == 16,
        0 <= left < right < 16,
        items[left] != empty_rlp(),
        items[right] != empty_rlp(),
    ensures
        filled_of(items) is Many,
{
    assert forall|n: u8| !only_filled(items, n) by {
        if only_filled(items, n) {
            assert(items[left] == empty_rlp() || left == n);
            assert(items[right] == empty_rlp() || right == n);
        }
    }
}

/// The items beside the spine one after another.
proof fn lemma_joined_spine(items: Seq<Seq<u8>>, count: nat)
    requires
        items.len() == 16,
        count <= 15,
        forall|n: int| 0 <= n < count ==> (#[trigger] items[n]).len() == MAX_ITEM,
    ensures
        joined(items, count).len() == MAX_ITEM * count,
    decreases count,
{
    if count > 0 {
        lemma_joined_spine(items, (count - 1) as nat);
    }
}

/// A branch frame with a change at every nibble of which one removes holds the child a collapse could
/// read and fifteen references beside what the last child holds, and where that child is left empty
/// the branch it closes.
proof fn lemma_branch_filled(
    nodes: Map<[u8; 32], Seq<u8>>,
    items: Seq<Seq<u8>>,
    changes: Map<Seq<u8>, Option<Seq<u8>>>,
    len: nat,
    prebuilt: Option<(u8, Seq<u8>)>,
    child: Seq<u8>,
)
    requires
        0 < len <= MAX_NIBBLES,
        items.len() == 16,
        leaves_spine(changes, len),
        beside_takes_one(nodes, items, len, prebuilt),
        child_at(nodes, items, prebuilt, 15) == Ok::<Seq<u8>, PathError>(child),
        updated(nodes, child, below(changes, seq![15u8]), (len - 1) as nat) is Ok,
    ensures
        children_updated(nodes, items, changes, len, prebuilt) matches Ok(branch) && branch
            != empty_rlp() && node_under_of(Seq::empty(), branch, reference_of(branch)) == Ok::<
            Seq<u8>,
            PathError,
        >(branch),
        ({
            let deeper = floor_of(nodes, child, below(changes, seq![15u8]), (len - 1) as nat);
            deeper > 0 ==> branch_floor(nodes, items, changes, len, prebuilt) >= BRANCH_CARRY + deeper
        }),
        updated(nodes, child, below(changes, seq![15u8]), (len - 1) as nat) == Ok::<
            Seq<u8>,
            PathError,
        >(empty_rlp()) ==> branch_floor(nodes, items, changes, len, prebuilt) >= FRAME_TAIL,
{
    lemma_leaves_spine(changes, len);
    lemma_branch_carry();
    lemma_branch_floor(nodes, items, changes, len, prebuilt);
    lemma_children_updated(nodes, items, changes, len, prebuilt);
    lemma_beside_spine(nodes, items, changes, len, prebuilt, 15);
    lemma_children_run(nodes, items, changes, len, prebuilt, 15);
    lemma_run_floor(nodes, items, changes, len, prebuilt, 15);
    assert(collapse_reaches_built(items, changes));
    let (rebuilt, built) = children_run(nodes, items, changes, len, prebuilt, 15)->Ok_0;
    assert(rebuilt[0] != empty_rlp() && rebuilt[1] != empty_rlp());
    let (all, last) = children_run(nodes, items, changes, len, prebuilt, 16)->Ok_0;
    assert(all[0] == rebuilt[0] && all[1] == rebuilt[1]);
    assert(filled_of(all) is Many) by {
        lemma_many(all, 0, 1);
    }
    assert(closed_branch(nodes, all, if last is Some { last } else { prebuilt }) == Ok::<
        Seq<u8>,
        PathError,
    >(branch_rlp(all))) by {
        reveal(closed_branch);
    }
    assert(branch_rlp(all) != empty_rlp()) by {
        lemma_list_filled(joined(all, 16) + empty_rlp());
    }
    assert(node_under_of(Seq::empty(), branch_rlp(all), reference_of(branch_rlp(all))) == Ok::<
        Seq<u8>,
        PathError,
    >(branch_rlp(all))) by {
        reveal(node_under_of);
    }
    lemma_joined_spine(all, 15);
    lemma_header_len((joined(all, 16) + empty_rlp()).len());
}

/// A frame that splits an extension along the spine holds what is left of it and its reference above
/// what the branch frame does.
proof fn lemma_split_filled(
    nodes: Map<[u8; 32], Seq<u8>>,
    path: Seq<u8>,
    item: Seq<u8>,
    changes: Map<Seq<u8>, Option<Seq<u8>>>,
    len: nat,
    child: Seq<u8>,
)
    requires
        0 < path.len() <= len <= MAX_NIBBLES,
        path == spine(path.len()),
        whole_item(item),
        item.len() == MAX_ITEM,
        leaves_spine(changes, len),
        path.len() > 1 ==> child == extension_rlp(path.skip(1), item),
        path.len() == 1 ==> child_of(nodes, item) == Ok::<Seq<u8>, PathError>(child),
        updated(nodes, child, below(changes, seq![15u8]), (len - 1) as nat) is Ok,
    ensures
        updated(nodes, extension_rlp(path, item), changes, len) is Ok,
        ({
            let left: int = if path.len() > 1 {
                child.len() + MAX_ITEM
            } else {
                0
            };
            let deeper = floor_of(nodes, child, below(changes, seq![15u8]), (len - 1) as nat);
            let floor = floor_of(nodes, extension_rlp(path, item), changes, len);
            &&& deeper > 0 ==> floor >= left + BRANCH_CARRY + deeper
            &&& updated(nodes, child, below(changes, seq![15u8]), (len - 1) as nat) == Ok::<
                Seq<u8>,
                PathError,
            >(empty_rlp()) ==> floor >= FRAME_TAIL
        }),
{
    let node_rlp = extension_rlp(path, item);
    let encoded = hex_prefix(path, false);
    let items = absent_items().update(15, residual_item(path, 0, item));
    let prebuilt = residual_child(path, 0, item);
    assert(is_path(path));
    law_extension_round_trip(path, item);
    lemma_list_filled(rlp_string(encoded) + item);
    lemma_leaves_spine(changes, len);
    assert(path.subrange(0, 0) =~= Seq::empty());
    assert(path.subrange(0, 1) =~= seq![15u8]);
    lemma_spine_left(changes, path);
    lemma_agreed_is(changes, path, 0);
    lemma_below_nothing(changes);
    lemma_floor_of(nodes, node_rlp, changes, len);
    lemma_split_floor(nodes, path, item, changes, len);
    lemma_updated(nodes, node_rlp, changes, len);
    lemma_extension_parts(nodes, node_rlp, encoded, item, changes, len);
    lemma_split_extension(nodes, node_rlp, path, item, changes, len);
    assert(is_node(empty_rlp()));
    law_reference_leads_back(nodes, empty_rlp());
    assert(empty_rlp().len() == 1);
    assert(beside_takes_one(nodes, items, len, prebuilt)) by {
        assert forall|n: u8| n < 15 implies (#[trigger] child_at(nodes, items, prebuilt, n) matches Ok(
            child_rlp,
        ) && takes_one(child_rlp, (len - 1) as nat)) by {
            assert(items[n as int] == empty_rlp());
        }
    }
    if path.len() > 1 {
        lemma_extension_len(path.skip(1), item);
    }
    lemma_branch_filled(nodes, items, changes, len, prebuilt, child);
}

/// Changes that leave the spine do not all follow a path along it.
proof fn lemma_spine_left(changes: Map<Seq<u8>, Option<Seq<u8>>>, path: Seq<u8>)
    requires
        path.len() > 0,
        path[0] == 15,
        !all_start_with(changes, seq![15u8]),
    ensures
        !all_start_with(changes, path),
{
    let key = choose|key: Seq<u8>| #[trigger]
        changes.contains_key(key) && !starts_with(key, seq![15u8]);
    if all_start_with(changes, path) {
        assert(starts_with(key, path));
        assert(key.subrange(0, path.len() as int)[0] == path[0]);
        assert(key.subrange(0, 1) =~= seq![15u8]);
    }
}

/// A descent that spends a whole key in one extension, with changes that leave it at every nibble,
/// runs to a node and holds at once every byte it is charged for.
pub proof fn law_every_frame_is_filled(
    nodes: Map<[u8; 32], Seq<u8>>,
    value: Seq<u8>,
    changes: Map<Seq<u8>, Option<Seq<u8>>>,
    len: nat,
)
    requires
        0 < len <= MAX_NIBBLES,
        leaves_spine(changes, len),
        holds_end(nodes, value),
    ensures
        floor_of(nodes, spending(len, value), changes, len) >= descent_bytes(
            MAX_NIBBLES - len,
            false,
        ),
        updated(nodes, spending(len, value), changes, len) is Ok,
    decreases len,
{
    let leaf = leaf_rlp(Seq::empty(), value);
    let item = digest_item(keccak(leaf));
    let path = spine(len);
    let deeper = below(changes, seq![15u8]);
    let depth = MAX_NIBBLES - len;

    lemma_long_leaf(Seq::empty(), value);
    law_reference_leads_back(nodes, leaf);
    if len > 1 {
        assert(path.skip(1) =~= spine((len - 1) as nat));
        lemma_extension_len(path.skip(1), item);
        lemma_header_len((path_bytes((len - 1) as int) + MAX_ITEM) as nat);
        law_every_frame_is_filled(nodes, value, deeper, (len - 1) as nat);
        lemma_descent_bytes(depth + 1, 64, false);
        lemma_split_filled(nodes, path, item, changes, len, spending((len - 1) as nat, value));
    } else {
        lemma_end_of_spine(nodes, value, deeper);
        lemma_split_filled(nodes, path, item, changes, len, leaf);
    }
}

/// The bound on the scratch is reached. An update of a trie whose root is an extension that spends a
/// whole key, with changes that leave it at every nibble, runs to a root and holds at once every
/// byte the scratch reserves, so none of them is slack.
pub proof fn law_bound_is_reached(
    nodes: Map<[u8; 32], Seq<u8>>,
    root: [u8; 32],
    value: Seq<u8>,
    changes: Map<Seq<u8>, Option<Seq<u8>>>,
)
    requires
        leaves_spine(changes, MAX_NIBBLES as nat),
        holds_end(nodes, value),
        root != empty_root(),
        nodes.contains_key(root),
        nodes[root] == spending(MAX_NIBBLES as nat, value),
    ensures
        root_floor(nodes, root, changes) >= STACK_LEN,
        updated_root(nodes, root, changes) is Ok,
{
    law_every_frame_is_filled(nodes, value, changes, 64);
    lemma_leaves_spine(changes, 64);
    law_stack_len_is_derived();
}

/// What [`PathState::batch_update`](crate::path::PathState::batch_update) holds at most of the scratch
/// is less over a canonical trie, whatever the changes: an extension there sits above a branch, so a
/// frame that splits one writes a path a nibble shorter than a witness at large could make it.
pub proof fn law_canonical_bound(
    nodes: Map<[u8; 32], Seq<u8>>,
    root: [u8; 32],
    entries: Map<Seq<u8>, Seq<u8>>,
)
    requires
        commits(nodes, root, entries),
    ensures
        root_ceiling(nodes, root) == STACK_LEN - 101,
{
    lemma_trie_leaves_room(nodes, entries, MAX_NIBBLES as nat);
    law_stack_len_is_derived();
}

/// A descent of a canonical trie that shares all but the last nibble of its keys, with changes that
/// leave what they share at every nibble, runs to a node and holds at once every byte a descent of
/// such a trie is charged for.
pub proof fn law_every_canonical_frame_is_filled(
    nodes: Map<[u8; 32], Seq<u8>>,
    items: Seq<Seq<u8>>,
    changes: Map<Seq<u8>, Option<Seq<u8>>>,
    len: nat,
)
    requires
        0 < len <= MAX_NIBBLES,
        leaves_spine(changes, len),
        holds_ends(nodes, items),
    ensures
        floor_of(nodes, branch_under_rlp(spine((len - 1) as nat), items), changes, len)
            >= descent_bytes(MAX_NIBBLES - len, true),
        updated(nodes, branch_under_rlp(spine((len - 1) as nat), items), changes, len) is Ok,
    decreases len,
{
    let branch = branch_rlp(items);
    let item = reference_of(branch);
    let path = spine((len - 1) as nat);
    let deeper = below(changes, seq![15u8]);
    let depth = MAX_NIBBLES - len;

    if len > 1 {
        lemma_list_filled(joined(items, 16) + empty_rlp());
        lemma_branch_len(items);
        assert(is_node(branch));
        law_reference_leads_back(nodes, branch);
        law_every_canonical_frame_is_filled(nodes, items, deeper, (len - 1) as nat);
        lemma_descent_bytes(depth + 1, 64, true);
        assert(path.skip(1) =~= spine((len - 2) as nat));
        if len > 2 {
            lemma_extension_len(path.skip(1), item);
            lemma_header_len((path_bytes((len - 2) as int) + MAX_ITEM) as nat);
        }
        lemma_split_filled(
            nodes,
            path,
            item,
            changes,
            len,
            branch_under_rlp(spine((len - 2) as nat), items),
        );
    } else {
        let payload = branch_payload(items);
        let child = child_of(nodes, items[15])->Ok_0;
        law_branch_round_trip(items);
        lemma_list_filled(payload);
        lemma_leaves_spine(changes, len);
        lemma_floor_of(nodes, branch, changes, len);
        lemma_updated(nodes, branch, changes, len);
        lemma_branch_many(nodes, payload, changes, len);
        assert(beside_takes_one(nodes, items, len, None)) by {
            assert forall|n: u8| n < 15 implies (#[trigger] child_at(nodes, items, None, n) matches Ok(
                child_rlp,
            ) && takes_one(child_rlp, 0)) by {
                assert(child_of(nodes, items[n as int]) is Ok);
            }
        }
        assert(child_of(nodes, items[15]) is Ok && ends_key(child));
        let value = choose|value: Seq<u8>|
            #![trigger leaf_rlp(Seq::empty(), value)]
            child == leaf_rlp(Seq::empty(), value) && DIGEST_LEN <= value.len() <= MAX_LEAF_VALUE;
        lemma_end_of_spine(nodes, value, deeper);
        lemma_branch_filled(nodes, items, changes, len, None, child);
    }
}

/// The spine but its last nibble leads to sixteen keys.
proof fn lemma_spine_key(n: u8)
    requires
        n < 16,
    ensures
        is_path(spine(63) + seq![n]),
        starts_with(spine(63) + seq![n], spine(63)),
{
    let key = spine(63) + seq![n];
    assert(key.subrange(0, 63) =~= spine(63));
    assert forall|i: int| 0 <= i < key.len() implies key[i] < 16 by {
        assert(i < 63 ==> key[i] == spine(63)[i]);
    }
}

/// The item of the branch where the sixteen keys part leads to the leaf of one of them.
proof fn lemma_end_of_entries(
    nodes: Map<[u8; 32], Seq<u8>>,
    entries: Map<Seq<u8>, Seq<u8>>,
    n: u8,
)
    requires
        n < 16,
        recordable(entries, MAX_NIBBLES as nat),
        faithful(nodes, entries, MAX_NIBBLES as nat),
        complete(
            nodes,
            entries,
            MAX_NIBBLES as nat,
            (Reach { keys: entries.dom(), beside: false }),
        ),
        ends_spine(entries),
        is_split(below(entries, spine(63)), Seq::empty()),
    ensures
        ({
            let item = trie_items(below(entries, spine(63)), 1)[n as int];
            &&& item.len() == MAX_ITEM
            &&& child_of(nodes, item) matches Ok(child_rlp) && ends_key(child_rlp)
        }),
{
    let front = spine(63);
    let reach = Reach { keys: entries.dom(), beside: false };
    let key = front + seq![n];
    let end = below(entries, key);
    let value = entries[key];
    lemma_spine_key(n);
    assert(entries.contains_key(key));
    lemma_below_below(entries, front, seq![n]);
    lemma_trie_items(below(entries, front), 1);
    assert(key + Seq::<u8>::empty() =~= key);
    assert(only_key(end, Seq::empty())) by {
        assert forall|other: Seq<u8>| end.contains_key(other) <==> other == Seq::<u8>::empty() by {
            if end.contains_key(other) {
                assert(entries.contains_key(key + other));
                assert(other =~= Seq::empty());
            }
        }
    }
    assert(end[Seq::empty()] == value);
    lemma_trie_leaf(end, 0, Seq::empty());
    lemma_long_leaf(Seq::empty(), value);
    assert(key.drop_last() =~= front);
    assert(reach.keys.contains(key));
    assert(key.subrange(0, 64) =~= key);
    assert(reach.reaches(key));
    lemma_child_read(nodes, entries, 64, key, reach);
    assert(node_at_path(entries, 64, key) == leaf_rlp(Seq::empty(), value));
    assert(ends_key(leaf_rlp(Seq::empty(), value)));
}

/// The sixteen keys that part at the last nibble make an extension over a branch of leaves, all of
/// which a witness that holds the whole trie holds.
proof fn lemma_ends_spine(
    nodes: Map<[u8; 32], Seq<u8>>,
    root: [u8; 32],
    entries: Map<Seq<u8>, Seq<u8>>,
) -> (items: Seq<Seq<u8>>)
    requires
        commits(nodes, root, entries),
        holds_trie(nodes, root, entries, (Reach { keys: entries.dom(), beside: false })),
        ends_spine(entries),
    ensures
        holds_ends(nodes, items),
        trie_rlp(entries, MAX_NIBBLES as nat) == branch_under_rlp(
            spine((MAX_NIBBLES - 1) as nat),
            items,
        ),
        !no_keys(entries),
{
    let front = spine(63);
    let reach = Reach { keys: entries.dom(), beside: false };
    let ends = below(entries, front);
    let items = trie_items(ends, 1);
    lemma_spine_key(0);
    lemma_spine_key(1);
    let (left, right) = (front + seq![0u8], front + seq![1u8]);
    assert(entries.contains_key(left) && entries.contains_key(right));
    assert(parts(front, left, right));
    assert(is_split(entries, front)) by {
        assert forall|key: Seq<u8>| #[trigger] entries.contains_key(key) implies starts_with(
            key,
            front,
        ) by {}
    }
    lemma_trie_extension(entries, 64, front);
    lemma_recordable_below(entries, 64, front);
    lemma_trie_branch(ends, 1);
    lemma_trie_items(ends, 1);
    lemma_trie_node(ends, 1);
    assert(reach.keys.contains(left));
    assert(left.subrange(0, 63) =~= front);
    assert(reach.reaches(front));
    lemma_child_read(nodes, entries, 64, front, reach);
    assert forall|n: int| 0 <= n < 16 implies (child_of(nodes, #[trigger] items[n]) matches Ok(
        child_rlp,
    ) && ends_key(child_rlp)) by {
        lemma_end_of_entries(nodes, entries, n as u8);
    }
    lemma_end_of_entries(nodes, entries, 0);
    lemma_wide_branch(items);
    items
}

/// A branch with an item as wide as a digest is itself too long to sit in place.
proof fn lemma_wide_branch(items: Seq<Seq<u8>>)
    requires
        narrow_items(items),
        items[0].len() == MAX_ITEM,
    ensures
        reference_of(branch_rlp(items)).len() == MAX_ITEM,
{
    lemma_branch_len(items);
    lemma_joined_least(items, 16);
    lemma_header_len((joined(items, 16) + empty_rlp()).len());
}

/// Items one after another are no narrower than the first.
proof fn lemma_joined_least(items: Seq<Seq<u8>>, count: nat)
    requires
        0 < count <= items.len(),
    ensures
        joined(items, count).len() >= items[0].len(),
    decreases count,
{
    if count > 1 {
        lemma_joined_least(items, (count - 1) as nat);
    } else {
        reveal_with_fuel(joined, 2);
    }
}

/// The bound on the scratch of a canonical trie is reached. An update of the trie of sixteen keys that
/// part at the last nibble, with changes that leave what they share at every nibble, runs to a root
/// and holds at once all that an update of such a trie can.
pub proof fn law_canonical_bound_is_reached(
    nodes: Map<[u8; 32], Seq<u8>>,
    root: [u8; 32],
    entries: Map<Seq<u8>, Seq<u8>>,
    changes: Map<Seq<u8>, Option<Seq<u8>>>,
)
    requires
        commits(nodes, root, entries),
        holds_trie(nodes, root, entries, (Reach { keys: entries.dom(), beside: false })),
        ends_spine(entries),
        leaves_spine(changes, MAX_NIBBLES as nat),
    ensures
        root_floor(nodes, root, changes) >= STACK_LEN - 101,
        root_floor(nodes, root, changes) >= root_ceiling(nodes, root),
        updated_root(nodes, root, changes) is Ok,
{
    let items = lemma_ends_spine(nodes, root, entries);
    law_every_canonical_frame_is_filled(nodes, items, changes, 64);
    lemma_leaves_spine(changes, 64);
    law_stack_len_is_derived();
    law_canonical_bound(nodes, root, entries);
}

} // verus!
