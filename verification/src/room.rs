//! Whether every extension a descent can meet leaves a nibble below it, as those of a canonical trie
//! do, since one sits above a branch.

use vstd::prelude::*;

use crate::canonical::{
    is_node, law_branch_round_trip, law_extension_round_trip, law_leaf_round_trip,
    law_reference_leads_back, whole_item,
};
use crate::descent::{
    absent_items, child_at, child_of, residual_child, residual_item, residual_rlp_of,
};
use crate::encode::{reference_of, MAX_LEAF_RLP};
use crate::nibbles::{is_path, path_of, MAX_NIBBLES};
use crate::node::{branch_items, empty_rlp, node_of, NodeView, MAX_ITEM};
use crate::outcome::{
    faithful, leads_to_node, lemma_below_faithful, lemma_child_read, node_at_path, Reach,
};
use crate::recorded::{
    lemma_recordable_below, lemma_split_exists, lemma_trie_branch, lemma_trie_extension,
    lemma_trie_node, recordable,
};
use crate::stack::{branch_descent_bytes, descent_bytes, lemma_room_saves};
use crate::steps::{lemma_residual_taken, lemma_split_budget};
use crate::trie::{
    below, is_single, lemma_below_nothing, lemma_trie_empty, lemma_trie_items, lemma_trie_leaf,
    no_keys, only_key, the_key, trie_items, trie_rlp,
};

verus! {

/// Whether no extension at or below a node spends every nibble a key has left there.
#[verifier::opaque]
pub open spec fn leaves_room(nodes: Map<[u8; 32], Seq<u8>>, node_rlp: Seq<u8>, len: nat) -> bool
    decreases len,
{
    if node_rlp == empty_rlp() || len == 0 {
        true
    } else {
        match node_of(node_rlp) {
            Ok(NodeView::Extension { path, child }) => {
                &&& 0 < path_of(path).len() < len
                &&& whole_item(child)
                &&& child_of(nodes, child) matches Ok(child_rlp) ==> leaves_room(
                    nodes,
                    child_rlp,
                    (len - path_of(path).len()) as nat,
                )
            },
            Ok(NodeView::Branch { payload }) => branch_items(payload) matches Ok(items) ==> forall|
                n: int,
            |
                0 <= n < 16 ==> (child_of(nodes, #[trigger] items[n]) matches Ok(child_rlp)
                    ==> leaves_room(nodes, child_rlp, (len - 1) as nat)),
            _ => true,
        }
    }
}

/// Whether an extension leaves a nibble below it, and so does every one its child leads to.
#[verifier::opaque]
pub open spec fn extension_leaves_room(
    nodes: Map<[u8; 32], Seq<u8>>,
    path: Seq<u8>,
    child: Seq<u8>,
    len: nat,
) -> bool {
    &&& 0 < path.len() < len
    &&& whole_item(child)
    &&& child_of(nodes, child) matches Ok(child_rlp) ==> leaves_room(
        nodes,
        child_rlp,
        (len - path.len()) as nat,
    )
}

/// Whether every extension the children of a branch lead to leaves a nibble below it.
#[verifier::opaque]
pub open spec fn branch_leaves_room(
    nodes: Map<[u8; 32], Seq<u8>>,
    items: Seq<Seq<u8>>,
    len: nat,
    prebuilt: Option<(u8, Seq<u8>)>,
) -> bool {
    forall|n: u8|
        n < 16 ==> (#[trigger] child_at(nodes, items, prebuilt, n) matches Ok(child_rlp)
            ==> leaves_room(nodes, child_rlp, (len - 1) as nat))
}

/// Whether a node leaves room is told by its kind.
pub proof fn lemma_leaves_room(nodes: Map<[u8; 32], Seq<u8>>, node_rlp: Seq<u8>, len: nat)
    ensures
        node_rlp != empty_rlp() && len > 0 ==> leaves_room(nodes, node_rlp, len) == match node_of(
            node_rlp,
        ) {
            Ok(NodeView::Extension { path, child }) => extension_leaves_room(
                nodes,
                path_of(path),
                child,
                len,
            ),
            Ok(NodeView::Branch { payload }) => match branch_items(payload) {
                Ok(items) => branch_leaves_room(nodes, items, len, None),
                Err(_) => true,
            },
            _ => true,
        },
        node_rlp == empty_rlp() || len == 0 ==> leaves_room(nodes, node_rlp, len),
{
    reveal(leaves_room);
    reveal(extension_leaves_room);
    reveal(branch_leaves_room);
    if node_rlp != empty_rlp() && len > 0 {
        if let Ok(NodeView::Branch { payload }) = node_of(node_rlp) {
            if let Ok(items) = branch_items(payload) {
                if branch_leaves_room(nodes, items, len, None) {
                    assert forall|n: int| 0 <= n < 16 implies (child_of(
                        nodes,
                        #[trigger] items[n],
                    ) matches Ok(child_rlp) ==> leaves_room(nodes, child_rlp, (len - 1) as nat)) by {
                        assert(child_at(nodes, items, None, n as u8) == child_of(nodes, items[n]));
                    }
                }
                if leaves_room(nodes, node_rlp, len) {
                    assert forall|n: u8| n < 16 implies (#[trigger] child_at(
                        nodes,
                        items,
                        None,
                        n,
                    ) matches Ok(child_rlp) ==> leaves_room(nodes, child_rlp, (len - 1) as nat)) by {
                        assert(child_at(nodes, items, None, n) == child_of(nodes, items[n as int]));
                    }
                }
            }
        }
    }
}

/// The children of a branch that leaves room leave it too.
pub proof fn lemma_child_leaves_room(
    nodes: Map<[u8; 32], Seq<u8>>,
    items: Seq<Seq<u8>>,
    len: nat,
    prebuilt: Option<(u8, Seq<u8>)>,
    nibble: u8,
)
    requires
        nibble < 16,
        branch_leaves_room(nodes, items, len, prebuilt),
    ensures
        child_at(nodes, items, prebuilt, nibble) matches Ok(child_rlp) ==> leaves_room(
            nodes,
            child_rlp,
            (len - 1) as nat,
        ),
{
    reveal(branch_leaves_room);
}

/// The branch a split makes of an extension leaves room where the extension does.
proof fn lemma_split_leaves_room(
    nodes: Map<[u8; 32], Seq<u8>>,
    path: Seq<u8>,
    shared: nat,
    child: Seq<u8>,
    len: nat,
)
    requires
        is_path(path),
        path.len() <= MAX_NIBBLES,
        shared < path.len(),
        child.len() <= MAX_ITEM,
        extension_leaves_room(nodes, path, child, len),
    ensures
        branch_leaves_room(
            nodes,
            absent_items().update(path[shared as int] as int, residual_item(path, shared, child)),
            (len - shared) as nat,
            residual_child(path, shared, child),
        ),
{
    reveal(extension_leaves_room);
    reveal(branch_leaves_room);
    let items = absent_items().update(path[shared as int] as int, residual_item(path, shared, child));
    let prebuilt = residual_child(path, shared, child);
    let rest = (len - shared - 1) as nat;
    assert(is_node(empty_rlp()));
    law_reference_leads_back(nodes, empty_rlp());
    assert(empty_rlp().len() == 1);
    lemma_leaves_room(nodes, empty_rlp(), rest);
    assert forall|n: u8| n < 16 implies (#[trigger] child_at(nodes, items, prebuilt, n) matches Ok(
        child_rlp,
    ) ==> leaves_room(nodes, child_rlp, rest)) by {
        if n == path[shared as int] && shared + 1 < path.len() {
            let tail = path.skip(shared as int + 1);
            let residual = residual_rlp_of(path, shared, child);
            assert(is_path(tail));
            law_extension_round_trip(tail, child);
            lemma_leaves_room(nodes, residual, rest);
            assert((rest - tail.len()) as nat == (len - path.len()) as nat);
        }
    }
}

/// What a split of an extension at `depth` writes and what the branch it makes holds fit in what the
/// descent is counted for there.
pub proof fn lemma_split_fits(
    nodes: Map<[u8; 32], Seq<u8>>,
    path: Seq<u8>,
    shared: nat,
    child: Seq<u8>,
    depth: int,
)
    requires
        is_path(path),
        0 <= depth,
        shared < path.len(),
        depth + path.len() <= MAX_NIBBLES,
        child.len() <= MAX_ITEM,
    ensures
        ({
            let roomy = extension_leaves_room(nodes, path, child, (MAX_NIBBLES - depth) as nat);
            let below = branch_leaves_room(
                nodes,
                absent_items().update(path[shared as int] as int, residual_item(path, shared, child)),
                (MAX_NIBBLES - depth - shared) as nat,
                residual_child(path, shared, child),
            );
            let frame = branch_descent_bytes(depth + shared, below);
            &&& frame <= descent_bytes(depth + shared, roomy)
            &&& shared + 1 < path.len() ==> residual_rlp_of(path, shared, child).len() + MAX_ITEM
                + frame <= descent_bytes(depth + shared, roomy)
            &&& shared > 0 ==> descent_bytes(depth + shared, roomy) + MAX_LEAF_RLP <= descent_bytes(
                depth,
                roomy,
            )
        }),
{
    let len = (MAX_NIBBLES - depth) as nat;
    let roomy = extension_leaves_room(nodes, path, child, len);
    if roomy {
        reveal(extension_leaves_room);
        lemma_split_leaves_room(nodes, path, shared, child, len);
    }
    lemma_residual_taken(path, shared, child, depth, roomy);
    lemma_split_budget(depth, shared as int, roomy);
    lemma_room_saves(depth + shared + 1);
}

/// What the witness resolves a child of a trie to leaves room where that child does.
proof fn lemma_below_leaves_room(
    nodes: Map<[u8; 32], Seq<u8>>,
    entries: Map<Seq<u8>, Seq<u8>>,
    len: nat,
    path: Seq<u8>,
)
    requires
        recordable(entries, len),
        faithful(nodes, entries, len),
        0 < path.len() <= len,
        no_keys(below(entries, path)) || leads_to_node(entries, path),
    ensures
        child_of(nodes, reference_of(node_at_path(entries, len, path))) matches Ok(child_rlp)
            ==> leaves_room(nodes, child_rlp, (len - path.len()) as nat),
    decreases len, 0nat,
{
    let reach = Reach::of_key(path);
    assert(reach.keys.contains(path));
    assert(path.subrange(0, path.len() as int) =~= path);
    lemma_child_read(nodes, entries, len, path, reach);
    lemma_recordable_below(entries, len, path);
    let inner = Reach { keys: Set::empty(), beside: false };
    lemma_below_faithful(nodes, entries, len, path, inner, reach);
    lemma_trie_leaves_room(nodes, below(entries, path), (len - path.len()) as nat);
}

/// Every extension of a canonical trie sits above a branch, and so leaves a nibble below it.
pub proof fn lemma_trie_leaves_room(
    nodes: Map<[u8; 32], Seq<u8>>,
    entries: Map<Seq<u8>, Seq<u8>>,
    len: nat,
)
    requires
        recordable(entries, len),
        faithful(nodes, entries, len),
    ensures
        leaves_room(nodes, trie_rlp(entries, len), len),
    decreases len, 1nat,
{
    lemma_trie_node(entries, len);
    lemma_leaves_room(nodes, trie_rlp(entries, len), len);
    if no_keys(entries) {
        lemma_trie_empty(entries, len);
    } else if is_single(entries) {
        let held = the_key(entries);
        assert(only_key(entries, held));
        assert(entries.contains_key(held));
        lemma_trie_leaf(entries, len, held);
        law_leaf_round_trip(held, entries[held]);
    } else {
        let path = lemma_split_exists(entries, len);
        if path.len() == 0 {
            assert(path =~= Seq::empty());
            lemma_trie_branch(entries, len);
            let items = trie_items(entries, len);
            law_branch_round_trip(items);
            lemma_trie_items(entries, len);
            lemma_below_nothing(entries);
            assert forall|n: u8| n < 16 implies (#[trigger] child_at(nodes, items, None, n) matches Ok(
                child_rlp,
            ) ==> leaves_room(nodes, child_rlp, (len - 1) as nat)) by {
                let front = seq![n];
                assert(items[n as int] == reference_of(node_at_path(entries, len, front)));
                assert(front.drop_last() =~= Seq::empty());
                lemma_below_leaves_room(nodes, entries, len, front);
            }
            assert(branch_leaves_room(nodes, items, len, None)) by {
                reveal(branch_leaves_room);
            }
        } else {
            lemma_trie_extension(entries, len, path);
            let item = reference_of(node_at_path(entries, len, path));
            lemma_recordable_below(entries, len, path);
            lemma_trie_node(below(entries, path), (len - path.len()) as nat);
            law_reference_leads_back(nodes, node_at_path(entries, len, path));
            law_extension_round_trip(path, item);
            lemma_below_leaves_room(nodes, entries, len, path);
            assert(extension_leaves_room(nodes, path, item, len)) by {
                reveal(extension_leaves_room);
            }
        }
    }
}

} // verus!
