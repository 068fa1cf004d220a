//! What an update makes of each kind of node, whatever witness it is met in.

use vstd::prelude::*;

use crate::descent::{
    absent_items, branch_child, child_at, child_of, children_run, children_updated, closed_branch,
    collapse_reaches_built, lemma_agreed_is, lemma_branch_many, lemma_branch_one,
    lemma_children_run, lemma_children_updated, lemma_extension_follows, lemma_extension_parts,
    lemma_run_fails, lemma_split_extension, lemma_updated, node_under_of, residual_child,
    residual_item, updated,
};
use crate::encode::{branch_rlp, extension_rlp, leaf_rlp, reference_of, spliced_branch};
use crate::error::PathError;
use crate::keccak::keccak;
use crate::nibbles::path_of;
use crate::node::{
    branch_items, empty_rlp, filled_of, item_start, law_filled_children, lemma_item_start, node_of,
    only_filled, Filled, NodeView,
};
use crate::path::updated_root;
use crate::rlp::{rlp_list, rlp_string};
use crate::trie::{
    all_start_with, below, branch_under_rlp, entry, has_removal, is_single, no_keys, only_key,
    overlay, starts_with, the_key, trie_rlp, written,
};

verus! {

/// Where an update starts: it leaves the root alone where nothing changes, and otherwise comes to the
/// hash of what becomes of the node the witness holds under the root, which for the root of a trie
/// that holds nothing is no node.
pub proof fn law_update_starts(
    nodes: Map<[u8; 32], Seq<u8>>,
    root: [u8; 32],
    changes: Map<Seq<u8>, Option<Seq<u8>>>,
    key: Seq<u8>,
)
    ensures
        (forall|at: Seq<u8>| !changes.contains_key(at)) ==> updated_root(nodes, root, changes) == Ok::<
            [u8; 32],
            PathError,
        >(root),
        changes.contains_key(key) && root == keccak(seq![0x80u8]) ==> updated_root(
            nodes,
            root,
            changes,
        ) == match updated(nodes, seq![0x80u8], changes, 64) {
            Err(error) => Err(error),
            Ok(node_rlp) => Ok(keccak(node_rlp)),
        },
        changes.contains_key(key) && root != keccak(seq![0x80u8]) && !nodes.contains_key(root)
            ==> updated_root(nodes, root, changes) == Err::<[u8; 32], PathError>(
            PathError::NodeNotResolved(root),
        ),
        changes.contains_key(key) && root != keccak(seq![0x80u8]) && nodes.contains_key(root)
            ==> updated_root(nodes, root, changes) == match updated(nodes, nodes[root], changes, 64) {
            Err(error) => Err(error),
            Ok(node_rlp) => Ok(keccak(node_rlp)),
        },
{
}

/// Where there was nothing, an update leaves the trie of what it writes.
pub proof fn law_update_of_nothing(
    nodes: Map<[u8; 32], Seq<u8>>,
    changes: Map<Seq<u8>, Option<Seq<u8>>>,
    len: nat,
    after: Map<Seq<u8>, Seq<u8>>,
)
    requires
        forall|key: Seq<u8>|
            {
                &&& #[trigger] after.contains_key(key) <==> changes.contains_key(key) && changes[key]
                    is Some
                &&& after.contains_key(key) ==> after[key] == changes[key]->Some_0
            },
    ensures
        updated(nodes, seq![0x80u8], changes, len) == Ok::<Seq<u8>, PathError>(trie_rlp(after, len)),
{
    lemma_updated(nodes, empty_rlp(), changes, len);
    let expected = written(changes);
    assert forall|key: Seq<u8>| (#[trigger] expected.contains_key(key) <==> after.contains_key(key)) && (
    after.contains_key(key) ==> expected[key] == after[key]) by {
        assert(after.contains_key(key) || !after.contains_key(key));
    }
    assert(expected =~= after);
}

/// A node that cannot be read ends an update.
pub proof fn law_update_of_unreadable(
    nodes: Map<[u8; 32], Seq<u8>>,
    node_rlp: Seq<u8>,
    changes: Map<Seq<u8>, Option<Seq<u8>>>,
    len: nat,
    error: PathError,
)
    requires
        node_rlp != seq![0x80u8],
        node_of(node_rlp) == Err::<NodeView, PathError>(error),
    ensures
        updated(nodes, node_rlp, changes, len) == Err::<Seq<u8>, PathError>(error),
{
    lemma_updated(nodes, node_rlp, changes, len);
}

/// A leaf becomes the trie of what it held and what is written, where it ends where keys do. It is
/// handed back byte for byte where all that is asked is to remove a key it does not hold.
pub proof fn law_update_of_leaf(
    nodes: Map<[u8; 32], Seq<u8>>,
    node_rlp: Seq<u8>,
    encoded: Seq<u8>,
    value: Seq<u8>,
    changes: Map<Seq<u8>, Option<Seq<u8>>>,
    len: nat,
    key: Seq<u8>,
    other: Seq<u8>,
    after: Map<Seq<u8>, Seq<u8>>,
)
    requires
        node_rlp != seq![0x80u8],
        node_of(node_rlp) == Ok::<NodeView, PathError>(NodeView::Leaf { path: encoded, value }),
        forall|at: Seq<u8>|
            {
                &&& #[trigger] after.contains_key(at) <==> if changes.contains_key(at) {
                    changes[at] is Some
                } else {
                    at == path_of(encoded)
                }
                &&& after.contains_key(at) && changes.contains_key(at) ==> after[at]
                    == changes[at]->Some_0
                &&& after.contains_key(at) && !changes.contains_key(at) ==> after[at] == value
            },
    ensures
        path_of(encoded).len() != len ==> updated(nodes, node_rlp, changes, len) == Err::<
            Seq<u8>,
            PathError,
        >(PathError::MalformedPath),
        path_of(encoded).len() == len && (forall|at: Seq<u8>| #[trigger]
            changes.contains_key(at) <==> at == key) && changes[key] is None && key != path_of(
            encoded,
        ) ==> updated(nodes, node_rlp, changes, len) == Ok::<Seq<u8>, PathError>(node_rlp),
        path_of(encoded).len() == len && changes.contains_key(key) && (changes[key] is Some || key
            == path_of(encoded) || changes.contains_key(other) && other != key) ==> updated(
            nodes,
            node_rlp,
            changes,
            len,
        ) == Ok::<Seq<u8>, PathError>(trie_rlp(after, len)),
{
    lemma_updated(nodes, node_rlp, changes, len);
    let expected = overlay(entry(path_of(encoded), value), changes);
    assert forall|at: Seq<u8>| (#[trigger] expected.contains_key(at) <==> after.contains_key(at)) && (
    after.contains_key(at) ==> expected[at] == after[at]) by {
        assert(after.contains_key(at) || !after.contains_key(at));
    }
    assert(expected =~= after);
    lemma_single(changes, key, other);
}

/// The changes below a path are those whose keys start with it, under what follows it.
proof fn lemma_below_is(
    changes: Map<Seq<u8>, Option<Seq<u8>>>,
    front: Seq<u8>,
    inner: Map<Seq<u8>, Option<Seq<u8>>>,
)
    requires
        forall|key: Seq<u8>|
            {
                &&& #[trigger] inner.contains_key(key) <==> changes.contains_key(front + key)
                &&& inner.contains_key(key) ==> inner[key] == changes[front + key]
            },
    ensures
        below(changes, front) == inner,
{
    let expected = below(changes, front);
    assert forall|key: Seq<u8>| (#[trigger] expected.contains_key(key) <==> inner.contains_key(key)) && (
    inner.contains_key(key) ==> expected[key] == inner[key]) by {
        assert(inner.contains_key(key) || !inner.contains_key(key));
    }
    assert(expected =~= inner);
}

/// One key alone is the one there is, and two are not one.
proof fn lemma_single(changes: Map<Seq<u8>, Option<Seq<u8>>>, key: Seq<u8>, other: Seq<u8>)
    ensures
        (forall|at: Seq<u8>| #[trigger] changes.contains_key(at) <==> at == key) ==> is_single(changes)
            && the_key(changes) == key,
        changes.contains_key(key) && changes.contains_key(other) && key != other ==> !is_single(
            changes,
        ),
        is_single(changes) && changes.contains_key(key) ==> the_key(changes) == key,
{
    if forall|at: Seq<u8>| #[trigger] changes.contains_key(at) <==> at == key {
        assert(only_key(changes, key));
    }
    if is_single(changes) {
        let only = the_key(changes);
        assert(only_key(changes, only));
        assert(changes.contains_key(only) <==> only == only);
        assert(changes.contains_key(key) ==> key == only);
        assert(changes.contains_key(other) ==> other == only);
    }
}

/// A node below further nibbles takes them into its own path where it has one, which may not come out
/// longer than a key, and a branch takes an extension for them.
pub proof fn law_node_under(path: Seq<u8>, node_rlp: Seq<u8>, item: Seq<u8>)
    ensures
        path.len() == 0 ==> node_under_of(path, node_rlp, item) == Ok::<Seq<u8>, PathError>(node_rlp),
        path.len() > 0 ==> node_under_of(path, node_rlp, item) == match node_of(node_rlp) {
            Err(error) => Err(error),
            Ok(NodeView::Leaf { path: encoded, value }) => if path.len() + path_of(encoded).len()
                <= 64 {
                Ok(leaf_rlp(path + path_of(encoded), value))
            } else {
                Err(PathError::MalformedPath)
            },
            Ok(NodeView::Extension { path: encoded, child }) => if path.len() + path_of(
                encoded,
            ).len() <= 64 {
                Ok(extension_rlp(path + path_of(encoded), child))
            } else {
                Err(PathError::MalformedPath)
            },
            Ok(NodeView::Branch { .. }) => Ok(extension_rlp(path, item)),
        },
{
    reveal(node_under_of);
}

/// A branch below nibbles that its entries share has an extension for them above it, and none where
/// there are none.
pub proof fn law_branch_under(path: Seq<u8>, items: Seq<Seq<u8>>)
    ensures
        path.len() == 0 ==> branch_under_rlp(path, items) == branch_rlp(items),
        path.len() > 0 ==> branch_under_rlp(path, items) == extension_rlp(
            path,
            reference_of(branch_rlp(items)),
        ),
{
}

/// A branch with one item replaced is its payload with the bytes of that item replaced behind a header
/// of its own, and refused where that is wider than any branch.
pub proof fn law_spliced_branch(payload: Seq<u8>, start: int, end: int, item: Seq<u8>)
    requires
        0 <= start <= end <= payload.len(),
    ensures
        ({
            let node_rlp = rlp_list(
                payload.subrange(0, start) + item + payload.subrange(end, payload.len() as int),
            );
            spliced_branch(payload, start, end, item) == if node_rlp.len() <= 532 {
                Ok(node_rlp)
            } else {
                Err(PathError::OversizedNode)
            }
        }),
{
    assert(payload.skip(end) =~= payload.subrange(end, payload.len() as int));
}

/// An extension every changed key follows keeps its path, byte for byte where nothing is removed, over
/// what becomes of its child, and goes with it where nothing is left. One that is longer than the keys
/// is refused.
pub proof fn law_update_along_extension(
    nodes: Map<[u8; 32], Seq<u8>>,
    node_rlp: Seq<u8>,
    encoded: Seq<u8>,
    child: Seq<u8>,
    changes: Map<Seq<u8>, Option<Seq<u8>>>,
    len: nat,
    inner: Map<Seq<u8>, Option<Seq<u8>>>,
)
    requires
        node_rlp != seq![0x80u8],
        node_of(node_rlp) == Ok::<NodeView, PathError>(NodeView::Extension { path: encoded, child }),
        path_of(encoded).len() > 0,
        forall|key: Seq<u8>|
            {
                &&& #[trigger] inner.contains_key(key) <==> changes.contains_key(
                    path_of(encoded) + key,
                )
                &&& inner.contains_key(key) ==> inner[key] == changes[path_of(encoded) + key]
            },
    ensures
        path_of(encoded).len() > len ==> updated(nodes, node_rlp, changes, len) == Err::<
            Seq<u8>,
            PathError,
        >(PathError::MalformedPath),
        path_of(encoded).len() <= len && (forall|key: Seq<u8>| #[trigger]
            changes.contains_key(key) ==> path_of(encoded).len() <= key.len() && key.subrange(
                0,
                path_of(encoded).len() as int,
            ) == path_of(encoded)) ==> updated(nodes, node_rlp, changes, len) == match child_of(
            nodes,
            child,
        ) {
            Err(error) => Err(error),
            Ok(child_rlp) => match updated(
                nodes,
                child_rlp,
                inner,
                (len - path_of(encoded).len()) as nat,
            ) {
                Err(error) => Err(error),
                Ok(below_rlp) => if below_rlp == seq![0x80u8] {
                    Ok(seq![0x80u8])
                } else if exists|key: Seq<u8>| #[trigger]
                    changes.contains_key(key) && changes[key] is None {
                    node_under_of(path_of(encoded), below_rlp, reference_of(below_rlp))
                } else {
                    Ok(rlp_list(rlp_string(encoded) + reference_of(below_rlp)))
                },
            },
        },
{
    lemma_updated(nodes, node_rlp, changes, len);
    lemma_extension_parts(nodes, node_rlp, encoded, child, changes, len);
    lemma_below_is(changes, path_of(encoded), inner);
    if path_of(encoded).len() <= len && all_start_with(changes, path_of(encoded)) {
        lemma_extension_follows(nodes, node_rlp, encoded, child, changes, len);
    }
}

/// What is left of an extension below the nibble a key leaves it at: its child where no more of its
/// path is left, and otherwise a shorter extension over it.
pub proof fn law_split_leaves(path: Seq<u8>, shared: nat, child: Seq<u8>)
    requires
        shared < path.len(),
    ensures
        absent_items().len() == 16,
        forall|i: int| 0 <= i < 16 ==> #[trigger] absent_items()[i] == seq![0x80u8],
        shared + 1 == path.len() ==> residual_item(path, shared, child) == child && residual_child(
            path,
            shared,
            child,
        ) is None,
        shared + 1 < path.len() ==> ({
            let left = extension_rlp(path.subrange(shared as int + 1, path.len() as int), child);
            &&& residual_item(path, shared, child) == reference_of(left)
            &&& residual_child(path, shared, child) == Some((path[shared as int], left))
        }),
{
    assert(path.skip(shared as int + 1) =~= path.subrange(shared as int + 1, path.len() as int));
}

/// An extension some changed key leaves parts at the first nibble one of them does: into two children
/// for one key written, with the changes below it made to what is left of it for more, and not at all
/// for a removal of one key that it does not hold.
pub proof fn law_update_splits_extension(
    nodes: Map<[u8; 32], Seq<u8>>,
    node_rlp: Seq<u8>,
    encoded: Seq<u8>,
    child: Seq<u8>,
    changes: Map<Seq<u8>, Option<Seq<u8>>>,
    len: nat,
    shared: nat,
    key: Seq<u8>,
    other: Seq<u8>,
    inner: Map<Seq<u8>, Option<Seq<u8>>>,
)
    requires
        node_rlp != seq![0x80u8],
        node_of(node_rlp) == Ok::<NodeView, PathError>(NodeView::Extension { path: encoded, child }),
        shared < path_of(encoded).len() <= len,
        forall|at: Seq<u8>| #[trigger]
            changes.contains_key(at) ==> at.len() == len && at.subrange(0, shared as int) == path_of(
                encoded,
            ).subrange(0, shared as int),
        changes.contains_key(key),
        key[shared as int] != path_of(encoded)[shared as int],
        forall|at: Seq<u8>|
            {
                &&& #[trigger] inner.contains_key(at) <==> changes.contains_key(
                    path_of(encoded).subrange(0, shared as int) + at,
                )
                &&& inner.contains_key(at) ==> inner[at] == changes[path_of(encoded).subrange(
                    0,
                    shared as int,
                ) + at]
            },
    ensures
        (forall|at: Seq<u8>| #[trigger] changes.contains_key(at) <==> at == key) && changes[key] is None
            ==> updated(nodes, node_rlp, changes, len) == Ok::<Seq<u8>, PathError>(node_rlp),
        (forall|at: Seq<u8>| #[trigger] changes.contains_key(at) <==> at == key) && changes[key] is Some
            ==> ({
            let path = path_of(encoded);
            let items = absent_items().update(
                path[shared as int] as int,
                residual_item(path, shared, child),
            ).update(
                key[shared as int] as int,
                reference_of(
                    leaf_rlp(key.subrange(shared as int + 1, key.len() as int), changes[key]->Some_0),
                ),
            );
            updated(nodes, node_rlp, changes, len) == Ok::<Seq<u8>, PathError>(
                if shared == 0 {
                    branch_rlp(items)
                } else {
                    extension_rlp(path.subrange(0, shared as int), reference_of(branch_rlp(items)))
                },
            )
        }),
        changes.contains_key(other) && other != key ==> updated(nodes, node_rlp, changes, len) == ({
            let path = path_of(encoded);
            match children_updated(
                nodes,
                absent_items().update(
                    path[shared as int] as int,
                    residual_item(path, shared, child),
                ),
                inner,
                (len - shared) as nat,
                residual_child(path, shared, child),
            ) {
                Err(error) => Err(error),
                Ok(below_rlp) => if below_rlp == seq![0x80u8] {
                    Ok(seq![0x80u8])
                } else {
                    node_under_of(
                        path.subrange(0, shared as int),
                        below_rlp,
                        reference_of(below_rlp),
                    )
                },
            }
        }),
{
    let path = path_of(encoded);
    let front = path.subrange(0, shared as int);
    lemma_updated(nodes, node_rlp, changes, len);
    lemma_extension_parts(nodes, node_rlp, encoded, child, changes, len);
    assert(all_start_with(changes, front));
    assert(!starts_with(key, path.subrange(0, shared as int + 1))) by {
        if starts_with(key, path.subrange(0, shared as int + 1)) {
            assert(key.subrange(0, shared as int + 1)[shared as int] == path.subrange(
                0,
                shared as int + 1,
            )[shared as int]);
        }
    }
    assert(!starts_with(key, path)) by {
        if starts_with(key, path) {
            assert(key.subrange(0, path.len() as int)[shared as int] == path[shared as int]);
        }
    }
    lemma_agreed_is(changes, path, shared);
    lemma_split_extension(nodes, node_rlp, path, child, changes, len);
    lemma_single(changes, key, other);
    lemma_below_is(changes, front, inner);
    assert(key.subrange(0, shared as int) == front);
    assert(key.skip(shared as int + 1) =~= key.subrange(shared as int + 1, key.len() as int));
}

/// A branch a removal was made below closes as nothing where no item is left, as what its last child
/// makes with its nibble in front where one is, and as itself where more are.
pub proof fn law_closed_branch(
    nodes: Map<[u8; 32], Seq<u8>>,
    items: Seq<Seq<u8>>,
    prebuilt: Option<(u8, Seq<u8>)>,
    first: int,
    second: int,
)
    ensures
        (forall|i: int| 0 <= i < 16 ==> #[trigger] items[i] == seq![0x80u8]) ==> closed_branch(
            nodes,
            items,
            prebuilt,
        ) == Ok::<Seq<u8>, PathError>(seq![0x80u8]),
        0 <= first < second < 16 && items[first] != seq![0x80u8] && items[second] != seq![0x80u8]
            ==> closed_branch(nodes, items, prebuilt) == Ok::<Seq<u8>, PathError>(branch_rlp(items)),
        0 <= first < 16 && items[first] != seq![0x80u8] && (forall|i: int|
            0 <= i < 16 && i != first ==> #[trigger] items[i] == seq![0x80u8]) ==> closed_branch(
            nodes,
            items,
            prebuilt,
        ) == match prebuilt {
            Some((nibble, child_rlp)) if nibble == first => node_under_of(
                seq![first as u8],
                child_rlp,
                items[first],
            ),
            _ => match child_of(nodes, items[first]) {
                Err(error) => Err(error),
                Ok(child_rlp) => node_under_of(seq![first as u8], child_rlp, items[first]),
            },
        },
{
    reveal(closed_branch);
    law_filled_children(items);
    if 0 <= first < second < 16 && items[first] != seq![0x80u8] && items[second] != seq![0x80u8] {
        assert(filled_of(items) is Many);
    }
    if 0 <= first < 16 && items[first] != seq![0x80u8] && (forall|i: int|
        0 <= i < 16 && i != first ==> #[trigger] items[i] == seq![0x80u8]) {
        assert(!(filled_of(items) is Empty));
        assert(only_filled(items, first as u8));
        match filled_of(items) {
            Filled::One(nibble) => {
                assert(nibble == first);
            },
            _ => {
                assert(false);
            },
        }
    }
}

/// Whether no change is below a nibble.
pub open spec fn untouched(changes: Map<Seq<u8>, Option<Seq<u8>>>, nibble: u8) -> bool {
    forall|key: Seq<u8>| #[trigger] changes.contains_key(key) ==> key.len() == 0 || key[0] != nibble
}

/// A nibble no change is below has none under it.
proof fn lemma_untouched(changes: Map<Seq<u8>, Option<Seq<u8>>>, nibble: u8)
    ensures
        untouched(changes, nibble) <==> no_keys(below(changes, seq![nibble])),
{
    let inner = below(changes, seq![nibble]);
    if untouched(changes, nibble) {
        assert forall|key: Seq<u8>| !inner.contains_key(key) by {
            assert((seq![nibble] + key)[0] == nibble);
            if inner.contains_key(key) {
                assert(changes.contains_key(seq![nibble] + key));
            }
        }
    } else {
        let key = choose|key: Seq<u8>| #[trigger]
            changes.contains_key(key) && !(key.len() == 0 || key[0] != nibble);
        assert(seq![nibble] + key.skip(1) =~= key);
        assert(inner.contains_key(key.skip(1)));
    }
}

/// Whether the child at a nibble comes to `child` and is then referenced through `item`, or is left as
/// it was where no change is below it.
pub open spec fn child_comes_to(
    nodes: Map<[u8; 32], Seq<u8>>,
    items: Seq<Seq<u8>>,
    changes: Map<Seq<u8>, Option<Seq<u8>>>,
    len: nat,
    prebuilt: Option<(u8, Seq<u8>)>,
    nibble: u8,
    child: Seq<u8>,
    item: Seq<u8>,
) -> bool {
    if untouched(changes, nibble) {
        item == items[nibble as int]
    } else {
        &&& item == reference_of(child)
        &&& (exists|key: Seq<u8>| #[trigger] changes.contains_key(key) && changes[key] is None)
            ==> child.len() <= 532
        &&& match prebuilt {
            Some((at, child_rlp)) if at == nibble => updated(
                nodes,
                child_rlp,
                below(changes, seq![nibble]),
                (len - 1) as nat,
            ) == Ok::<Seq<u8>, PathError>(child),
            _ => child_of(nodes, items[nibble as int]) matches Ok(child_rlp) && updated(
                nodes,
                child_rlp,
                below(changes, seq![nibble]),
                (len - 1) as nat,
            ) == Ok::<Seq<u8>, PathError>(child),
        }
    }
}

/// The first child that was rebuilt and is not empty, of those at the first `count` nibbles.
spec fn first_built(
    changes: Map<Seq<u8>, Option<Seq<u8>>>,
    children: Seq<Seq<u8>>,
    count: nat,
) -> Option<(u8, Seq<u8>)>
    decreases count,
{
    if count == 0 {
        None
    } else {
        let before = first_built(changes, children, (count - 1) as nat);
        if before is Some || untouched(changes, (count - 1) as u8) || children[count - 1]
            == empty_rlp() {
            before
        } else {
            Some(((count - 1) as u8, children[count - 1]))
        }
    }
}

/// The items of a branch once the changes below its first nibbles are made.
proof fn lemma_run_is(
    nodes: Map<[u8; 32], Seq<u8>>,
    items: Seq<Seq<u8>>,
    changes: Map<Seq<u8>, Option<Seq<u8>>>,
    len: nat,
    prebuilt: Option<(u8, Seq<u8>)>,
    children: Seq<Seq<u8>>,
    rebuilt: Seq<Seq<u8>>,
    count: nat,
)
    requires
        len > 0,
        count <= 16,
        items.len() == 16,
        rebuilt.len() == 16,
        forall|n: u8|
            n < count ==> child_comes_to(
                nodes,
                items,
                changes,
                len,
                prebuilt,
                n,
                children[n as int],
                #[trigger] rebuilt[n as int],
            ),
    ensures
        children_run(nodes, items, changes, len, prebuilt, count) == Ok::<
            (Seq<Seq<u8>>, Option<(u8, Seq<u8>)>),
            PathError,
        >(
            (
                rebuilt.take(count as int) + items.skip(count as int),
                if collapse_reaches_built(items, changes) {
                    first_built(changes, children, count)
                } else {
                    None
                },
            ),
        ),
    decreases count,
{
    if count == 0 {
        lemma_children_run(nodes, items, changes, len, prebuilt, 0);
        assert(rebuilt.take(0) + items.skip(0) =~= items);
    } else {
        let before = (count - 1) as nat;
        let n = (count - 1) as u8;
        lemma_run_is(nodes, items, changes, len, prebuilt, children, rebuilt, before);
        lemma_children_run(nodes, items, changes, len, prebuilt, n);
        lemma_untouched(changes, n);
        assert(child_comes_to(
            nodes,
            items,
            changes,
            len,
            prebuilt,
            n,
            children[n as int],
            rebuilt[n as int],
        ));
        let earlier = rebuilt.take(before as int) + items.skip(before as int);
        let later = rebuilt.take(count as int) + items.skip(count as int);
        if untouched(changes, n) {
            assert(earlier =~= later);
        } else {
            assert(earlier.update(n as int, rebuilt[n as int]) =~= later);
        }
    }
}

/// A branch becomes the one over the items its children come to. Where something was removed it closes
/// as what is left of it: nothing, the one child that is left with its nibble in front, or itself.
pub proof fn law_update_of_children(
    nodes: Map<[u8; 32], Seq<u8>>,
    items: Seq<Seq<u8>>,
    changes: Map<Seq<u8>, Option<Seq<u8>>>,
    len: nat,
    prebuilt: Option<(u8, Seq<u8>)>,
    children: Seq<Seq<u8>>,
    rebuilt: Seq<Seq<u8>>,
    first: int,
    second: int,
)
    requires
        len > 0,
        items.len() == 16,
        rebuilt.len() == 16,
        forall|n: u8|
            n < 16 ==> child_comes_to(
                nodes,
                items,
                changes,
                len,
                prebuilt,
                n,
                children[n as int],
                #[trigger] rebuilt[n as int],
            ),
    ensures
        (forall|key: Seq<u8>| #[trigger] changes.contains_key(key) ==> changes[key] is Some)
            ==> children_updated(nodes, items, changes, len, prebuilt) == Ok::<Seq<u8>, PathError>(
            branch_rlp(rebuilt),
        ),
        0 <= first < second < 16 && rebuilt[first] != seq![0x80u8] && rebuilt[second] != seq![0x80u8]
            ==> children_updated(nodes, items, changes, len, prebuilt) == Ok::<Seq<u8>, PathError>(
            branch_rlp(rebuilt),
        ),
        (exists|key: Seq<u8>| #[trigger] changes.contains_key(key) && changes[key] is None) && (forall|
            i: int,
        |
            0 <= i < 16 ==> #[trigger] rebuilt[i] == seq![0x80u8]) ==> children_updated(
            nodes,
            items,
            changes,
            len,
            prebuilt,
        ) == Ok::<Seq<u8>, PathError>(seq![0x80u8]),
        (exists|key: Seq<u8>| #[trigger] changes.contains_key(key) && changes[key] is None) && 0
            <= first < 16 && rebuilt[first] != seq![0x80u8] && (forall|i: int|
            0 <= i < 16 && i != first ==> #[trigger] rebuilt[i] == seq![0x80u8])
            ==> children_updated(nodes, items, changes, len, prebuilt) == if untouched(
            changes,
            first as u8,
        ) {
            match prebuilt {
                Some((nibble, child_rlp)) if nibble == first => node_under_of(
                    seq![first as u8],
                    child_rlp,
                    items[first],
                ),
                _ => match child_of(nodes, items[first]) {
                    Err(error) => Err(error),
                    Ok(child_rlp) => node_under_of(seq![first as u8], child_rlp, items[first]),
                },
            }
        } else {
            node_under_of(seq![first as u8], children[first], rebuilt[first])
        },
{
    let built = first_built(changes, children, 16);
    let reaches = collapse_reaches_built(items, changes);
    let kept = if reaches {
        built
    } else {
        None
    };
    let last = if kept is Some {
        kept
    } else {
        prebuilt
    };
    lemma_run_is(nodes, items, changes, len, prebuilt, children, rebuilt, 16);
    lemma_children_updated(nodes, items, changes, len, prebuilt);
    assert(rebuilt.take(16) + items.skip(16) =~= rebuilt);
    law_closed_branch(nodes, rebuilt, last, first, second);
    if has_removal(changes) && 0 <= first < 16 && rebuilt[first] != seq![0x80u8] && (forall|i: int|
        0 <= i < 16 && i != first ==> #[trigger] rebuilt[i] == seq![0x80u8]) {
        let nibble = first as u8;
        assert(child_comes_to(
            nodes,
            items,
            changes,
            len,
            prebuilt,
            nibble,
            children[first],
            rebuilt[nibble as int],
        ));
        lemma_first_built(nodes, items, changes, len, prebuilt, children, rebuilt, first, 16);
        lemma_untouched(changes, nibble);
        if untouched(changes, nibble) {
            assert(built is None);
        } else {
            assert(reaches) by {
                assert forall|n: u8| n < 16 && no_keys(
                    #[trigger] below(changes, seq![n]),
                ) implies items[n as int] == empty_rlp() by {
                    lemma_untouched(changes, n);
                    assert(n != nibble);
                    assert(child_comes_to(
                        nodes,
                        items,
                        changes,
                        len,
                        prebuilt,
                        n,
                        children[n as int],
                        rebuilt[n as int],
                    ));
                }
            }
            assert(built == Some((nibble, children[first])));
        }
    }
}

/// Where one item alone is left, the child that was rebuilt is the one behind it, or there is none.
proof fn lemma_first_built(
    nodes: Map<[u8; 32], Seq<u8>>,
    items: Seq<Seq<u8>>,
    changes: Map<Seq<u8>, Option<Seq<u8>>>,
    len: nat,
    prebuilt: Option<(u8, Seq<u8>)>,
    children: Seq<Seq<u8>>,
    rebuilt: Seq<Seq<u8>>,
    first: int,
    count: nat,
)
    requires
        count <= 16,
        0 <= first < 16,
        forall|n: u8|
            n < 16 ==> child_comes_to(
                nodes,
                items,
                changes,
                len,
                prebuilt,
                n,
                children[n as int],
                #[trigger] rebuilt[n as int],
            ),
        rebuilt[first] != empty_rlp(),
        forall|i: int| 0 <= i < 16 && i != first ==> #[trigger] rebuilt[i] == empty_rlp(),
    ensures
        first_built(changes, children, count) == if untouched(changes, first as u8) || count <= first {
            None
        } else {
            Some((first as u8, children[first]))
        },
    decreases count,
{
    if count > 0 {
        let n = (count - 1) as u8;
        lemma_first_built(
            nodes,
            items,
            changes,
            len,
            prebuilt,
            children,
            rebuilt,
            first,
            (count - 1) as nat,
        );
        assert(child_comes_to(
            nodes,
            items,
            changes,
            len,
            prebuilt,
            n,
            children[n as int],
            rebuilt[n as int],
        ));
        assert(empty_rlp().len() == 1);
        if n != first && !untouched(changes, n) {
            assert(rebuilt[n as int] == empty_rlp());
            lemma_reference_of_empty(children[n as int]);
        } else if n == first && !untouched(changes, n) {
            if children[first] == empty_rlp() {
                assert(rebuilt[first] == empty_rlp());
            }
        }
    }
}

/// Only no node at all is referenced through an empty string.
proof fn lemma_reference_of_empty(node_rlp: Seq<u8>)
    ensures
        reference_of(node_rlp) == empty_rlp() <==> node_rlp == empty_rlp(),
{
    assert(empty_rlp().len() == 1);
}

/// Where every item is left empty, no child was rebuilt that is not.
proof fn lemma_none_built(
    nodes: Map<[u8; 32], Seq<u8>>,
    items: Seq<Seq<u8>>,
    changes: Map<Seq<u8>, Option<Seq<u8>>>,
    len: nat,
    prebuilt: Option<(u8, Seq<u8>)>,
    children: Seq<Seq<u8>>,
    rebuilt: Seq<Seq<u8>>,
    count: nat,
)
    requires
        count <= 16,
        forall|n: u8|
            n < count ==> child_comes_to(
                nodes,
                items,
                changes,
                len,
                prebuilt,
                n,
                children[n as int],
                #[trigger] rebuilt[n as int],
            ),
        forall|n: u8| n < count ==> #[trigger] rebuilt[n as int] == empty_rlp(),
    ensures
        first_built(changes, children, count) is None,
    decreases count,
{
    if count > 0 {
        let n = (count - 1) as u8;
        lemma_none_built(
            nodes,
            items,
            changes,
            len,
            prebuilt,
            children,
            rebuilt,
            (count - 1) as nat,
        );
        assert(rebuilt[n as int] == empty_rlp());
        lemma_reference_of_empty(children[n as int]);
    }
}

/// The first child of a branch that cannot be found or updated ends the update, and so does one that
/// comes out wider than a branch where a removal could leave it alone, as it is then kept whole.
pub proof fn law_update_fails_at_child(
    nodes: Map<[u8; 32], Seq<u8>>,
    items: Seq<Seq<u8>>,
    changes: Map<Seq<u8>, Option<Seq<u8>>>,
    len: nat,
    prebuilt: Option<(u8, Seq<u8>)>,
    children: Seq<Seq<u8>>,
    rebuilt: Seq<Seq<u8>>,
    nibble: u8,
    error: PathError,
)
    requires
        len > 0,
        nibble < 16,
        items.len() == 16,
        rebuilt.len() == 16,
        forall|n: u8|
            n < nibble ==> child_comes_to(
                nodes,
                items,
                changes,
                len,
                prebuilt,
                n,
                children[n as int],
                #[trigger] rebuilt[n as int],
            ),
        !untouched(changes, nibble),
        match (
            match prebuilt {
                Some((at, child_rlp)) if at == nibble => Ok(child_rlp),
                _ => child_of(nodes, items[nibble as int]),
            }
        ) {
            Err(refused) => refused == error,
            Ok(child_rlp) => match updated(
                nodes,
                child_rlp,
                below(changes, seq![nibble]),
                (len - 1) as nat,
            ) {
                Err(refused) => refused == error,
                Ok(child) => {
                    &&& error == PathError::OversizedNode
                    &&& child.len() > 532
                    &&& exists|key: Seq<u8>| #[trigger]
                        changes.contains_key(key) && changes[key] is None
                    &&& forall|n: u8|
                        n < 16 && untouched(changes, n) ==> #[trigger] items[n as int] == seq![0x80u8]
                    &&& forall|n: u8|
                        n < nibble ==> #[trigger] rebuilt[n as int] == seq![0x80u8]
                },
            },
        },
    ensures
        children_updated(nodes, items, changes, len, prebuilt) == Err::<Seq<u8>, PathError>(error),
{
    lemma_run_is(nodes, items, changes, len, prebuilt, children, rebuilt, nibble as nat);
    lemma_children_run(nodes, items, changes, len, prebuilt, nibble);
    lemma_untouched(changes, nibble);
    let found = child_at(nodes, items, prebuilt, nibble);
    let inner = below(changes, seq![nibble]);
    if found is Ok && updated(nodes, found->Ok_0, inner, (len - 1) as nat) is Ok {
        assert(empty_rlp().len() == 1);
        assert(collapse_reaches_built(items, changes)) by {
            assert forall|n: u8| n < 16 && no_keys(#[trigger] below(changes, seq![n])) implies
                items[n as int] == empty_rlp() by {
                lemma_untouched(changes, n);
                assert(items[n as int] == seq![0x80u8]);
            }
        }
        lemma_none_built(nodes, items, changes, len, prebuilt, children, rebuilt, nibble as nat);
    }
    lemma_run_fails(nodes, items, changes, len, prebuilt, (nibble + 1) as nat, 16);
    lemma_children_updated(nodes, items, changes, len, prebuilt);
}

/// A branch more than one key is changed below is read whole and has its children updated. One that a
/// single key is changed below has that one child updated, its bytes put in the place of the ones it
/// was referenced through where it is written, with all the others read only for a removal. A branch
/// no nibble is left for is refused, and so is one that comes out wider than any.
pub proof fn law_update_of_branch(
    nodes: Map<[u8; 32], Seq<u8>>,
    node_rlp: Seq<u8>,
    payload: Seq<u8>,
    changes: Map<Seq<u8>, Option<Seq<u8>>>,
    len: nat,
    key: Seq<u8>,
    other: Seq<u8>,
)
    requires
        node_rlp != seq![0x80u8],
        node_of(node_rlp) == Ok::<NodeView, PathError>(NodeView::Branch { payload }),
        changes.contains_key(key),
        key.len() == len,
    ensures
        changes.contains_key(other) && other != key ==> updated(nodes, node_rlp, changes, len)
            == match branch_items(payload) {
            Err(error) => Err(error),
            Ok(items) => children_updated(nodes, items, changes, len, None),
        },
        (forall|at: Seq<u8>| #[trigger] changes.contains_key(at) <==> at == key) && len == 0
            ==> updated(nodes, node_rlp, changes, len) == Err::<Seq<u8>, PathError>(
            PathError::ValueInBranch,
        ),
        (forall|at: Seq<u8>| #[trigger] changes.contains_key(at) <==> at == key) && len > 0
            && changes[key] is Some ==> updated(nodes, node_rlp, changes, len) == match branch_child(
            nodes,
            payload,
            key[0],
        ) {
            Err(error) => Err(error),
            Ok(child_rlp) => match updated(
                nodes,
                child_rlp,
                below(changes, seq![key[0]]),
                (len - 1) as nat,
            ) {
                Err(error) => Err(error),
                Ok(below_rlp) => {
                    let start = item_start(payload, key[0] as nat)->Ok_0 as int;
                    let end = item_start(payload, (key[0] + 1) as nat)->Ok_0 as int;
                    let written = rlp_list(
                        payload.subrange(0, start) + reference_of(below_rlp) + payload.subrange(
                            end,
                            payload.len() as int,
                        ),
                    );
                    if written.len() > 532 {
                        Err(PathError::OversizedNode)
                    } else {
                        Ok(written)
                    }
                },
            },
        },
        (forall|at: Seq<u8>| #[trigger] changes.contains_key(at) <==> at == key) && len > 0
            && changes[key] is None ==> updated(nodes, node_rlp, changes, len) == match branch_child(
            nodes,
            payload,
            key[0],
        ) {
            Err(error) => Err(error),
            Ok(child_rlp) => match branch_items(payload) {
                Err(error) => Err(error),
                Ok(items) => match updated(
                    nodes,
                    child_rlp,
                    below(changes, seq![key[0]]),
                    (len - 1) as nat,
                ) {
                    Err(error) => Err(error),
                    Ok(below_rlp) => closed_branch(
                        nodes,
                        items.update(key[0] as int, reference_of(below_rlp)),
                        Some((key[0], below_rlp)),
                    ),
                },
            },
        },
{
    lemma_updated(nodes, node_rlp, changes, len);
    lemma_single(changes, key, other);
    if is_single(changes) {
        lemma_branch_one(nodes, payload, changes, len);
        if len > 0 && branch_child(nodes, payload, key[0]) is Ok {
            lemma_item_start(payload, (key[0] + 1) as nat);
            let end = item_start(payload, (key[0] + 1) as nat)->Ok_0 as int;
            assert(payload.skip(end) =~= payload.subrange(end, payload.len() as int));
        }
    } else {
        lemma_branch_many(nodes, payload, changes, len);
    }
}

} // verus!
