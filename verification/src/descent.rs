//! What a read of the witness comes to, and what applying a change set to it does.
//!
//! A witness is the nodes it holds by the digest each is referenced through, and says nothing of
//! the trie they were taken from, so every statement here holds of a malformed one too.

use vstd::prelude::*;

use crate::encode::{
    branch_rlp, encoded_extension_rlp, extension_rlp, leaf_rlp, reference_of, spliced_branch,
};
use crate::error::PathError;
use crate::keccak::digest_of;
use crate::nibbles::{path_of, MAX_NIBBLES};
use crate::node::{
    branch_items, empty_rlp, filled_of, item_start, node_of, Filled, NodeView, DIGEST_LEN,
    MAX_BRANCH_RLP,
};
use crate::rlp::header_of;
use crate::trie::{
    all_start_with, below, branch_under_rlp, entry, has_removal, is_single, lemma_trie_empty,
    no_keys, only_key, overlay, starts_with, the_key, trie_rlp, written,
};

verus! {

/// The node `digest` commits to, where the witness holds it.
pub open spec fn resolved(nodes: Map<[u8; 32], Seq<u8>>, digest: [u8; 32]) -> Result<
    Seq<u8>,
    PathError,
> {
    if nodes.contains_key(digest) {
        Ok(nodes[digest])
    } else {
        Err(PathError::NodeNotResolved(digest))
    }
}

/// The node a parent references through `item`, or the empty node when the slot is absent.
#[verifier::opaque]
pub open spec fn child_of(nodes: Map<[u8; 32], Seq<u8>>, item: Seq<u8>) -> Result<
    Seq<u8>,
    PathError,
> {
    match header_of(item) {
        Err(error) => Err(PathError::Rlp(error)),
        Ok(header) => if header.list {
            Ok(item)
        } else if header.payload_length == 0 {
            Ok(empty_rlp())
        } else if header.payload_length == DIGEST_LEN {
            resolved(
                nodes,
                digest_of(item.subrange(header.skipped as int, header.skipped + DIGEST_LEN)),
            )
        } else {
            Err(PathError::Rlp(alloy_rlp::Error::UnexpectedLength))
        },
    }
}

/// What a walk from `node_rlp` finds at the nibbles a key has left.
pub open spec fn walked(nodes: Map<[u8; 32], Seq<u8>>, node_rlp: Seq<u8>, key: Seq<u8>) -> Result<
    Option<Seq<u8>>,
    PathError,
>
    decreases key.len(),
{
    if node_rlp == empty_rlp() {
        Ok(None)
    } else {
        match node_of(node_rlp) {
            Err(error) => Err(error),
            Ok(NodeView::Leaf { path, value }) => if path_of(path) == key {
                Ok(Some(value))
            } else {
                Ok(None)
            },
            Ok(NodeView::Extension { path, child }) => if path_of(path).len() > 0 && starts_with(
                key,
                path_of(path),
            ) {
                match child_of(nodes, child) {
                    Err(error) => Err(error),
                    Ok(child_rlp) => walked(nodes, child_rlp, key.skip(path_of(path).len() as int)),
                }
            } else {
                Ok(None)
            },
            Ok(NodeView::Branch { payload }) => if key.len() == 0 {
                Err(PathError::ValueInBranch)
            } else {
                match branch_child(nodes, payload, key[0]) {
                    Err(error) => Err(error),
                    Ok(child_rlp) => walked(nodes, child_rlp, key.skip(1)),
                }
            },
        }
    }
}

/// The node a branch references at `nibble`.
pub open spec fn branch_child(nodes: Map<[u8; 32], Seq<u8>>, payload: Seq<u8>, nibble: u8) -> Result<
    Seq<u8>,
    PathError,
> {
    match (item_start(payload, nibble as nat), item_start(payload, (nibble + 1) as nat)) {
        (Ok(start), Ok(end)) => child_of(nodes, payload.subrange(start as int, end as int)),
        (_, Err(error)) => Err(error),
        (Err(error), _) => Err(error),
    }
}

/// What a read of `key` in the trie rooted at `root` comes to.
pub open spec fn read(nodes: Map<[u8; 32], Seq<u8>>, root: [u8; 32], key: Seq<u8>) -> Result<
    Option<Seq<u8>>,
    PathError,
> {
    match resolved(nodes, root) {
        Err(error) => Err(error),
        Ok(node_rlp) => walked(nodes, node_rlp, key),
    }
}

/// The node `node_rlp` becomes with `path` nibbles above it, which a short node absorbs into its
/// own path and a branch takes an extension for. `item` is what a parent references it through.
#[verifier::opaque]
pub open spec fn node_under_of(path: Seq<u8>, node_rlp: Seq<u8>, item: Seq<u8>) -> Result<
    Seq<u8>,
    PathError,
> {
    if path.len() == 0 {
        Ok(node_rlp)
    } else {
        match node_of(node_rlp) {
            Err(error) => Err(error),
            Ok(NodeView::Leaf { path: encoded, value }) => if path.len() + path_of(encoded).len()
                > MAX_NIBBLES {
                Err(PathError::MalformedPath)
            } else {
                Ok(leaf_rlp(path + path_of(encoded), value))
            },
            Ok(NodeView::Extension { path: encoded, child }) => if path.len() + path_of(
                encoded,
            ).len() > MAX_NIBBLES {
                Err(PathError::MalformedPath)
            } else {
                Ok(extension_rlp(path + path_of(encoded), child))
            },
            Ok(NodeView::Branch { payload }) => Ok(extension_rlp(path, item)),
        }
    }
}

/// A child whose encoding is at hand rather than in the witness, under the nibble it sits at.
pub open spec fn child_at(
    nodes: Map<[u8; 32], Seq<u8>>,
    items: Seq<Seq<u8>>,
    prebuilt: Option<(u8, Seq<u8>)>,
    nibble: u8,
) -> Result<Seq<u8>, PathError> {
    match prebuilt {
        Some((at, node_rlp)) => if at == nibble {
            Ok(node_rlp)
        } else {
            child_of(nodes, items[nibble as int])
        },
        None => child_of(nodes, items[nibble as int]),
    }
}

/// The node a branch closes as once a removal has been applied to its children: that branch itself,
/// the short node its last child makes with its nibble in front, or the empty node.
#[verifier::opaque]
pub open spec fn closed_branch(
    nodes: Map<[u8; 32], Seq<u8>>,
    items: Seq<Seq<u8>>,
    prebuilt: Option<(u8, Seq<u8>)>,
) -> Result<Seq<u8>, PathError> {
    match filled_of(items) {
        Filled::Empty => Ok(empty_rlp()),
        Filled::One(nibble) => match child_at(nodes, items, prebuilt, nibble) {
            Err(error) => Err(error),
            Ok(child_rlp) => node_under_of(seq![nibble], child_rlp, items[nibble as int]),
        },
        Filled::Many => Ok(branch_rlp(items)),
    }
}

/// The longest part of `path`, from its front, that every key starts with.
pub open spec fn agreed_len<V>(changes: Map<Seq<u8>, V>, path: Seq<u8>) -> nat
    decreases path.len(),
{
    if path.len() == 0 || all_start_with(changes, path) {
        path.len()
    } else {
        agreed_len(changes, path.drop_last())
    }
}

/// What every key starts with is no longer than the path, and every key does start with it, and
/// with no more of the path.
pub proof fn lemma_agreed_len<V>(changes: Map<Seq<u8>, V>, path: Seq<u8>)
    ensures
        agreed_len(changes, path) <= path.len(),
        all_start_with(changes, path.subrange(0, agreed_len(changes, path) as int)),
        agreed_len(changes, path) == path.len() <==> all_start_with(changes, path),
        agreed_len(changes, path) < path.len() ==> !all_start_with(
            changes,
            path.subrange(0, agreed_len(changes, path) as int + 1),
        ),
    decreases path.len(),
{
    let shared = agreed_len(changes, path);
    assert(path.subrange(0, path.len() as int) =~= path);
    if path.len() > 0 && !all_start_with(changes, path) {
        lemma_agreed_len(changes, path.drop_last());
        assert(path.drop_last().subrange(0, shared as int) =~= path.subrange(0, shared as int));
        if shared < path.len() - 1 {
            assert(path.drop_last().subrange(0, shared as int + 1) =~= path.subrange(0, shared as int + 1));
        } else {
            assert(path.subrange(0, shared as int + 1) =~= path);
        }
    } else if path.len() == 0 {
        assert forall|key: Seq<u8>| #[trigger] changes.contains_key(key) implies starts_with(
            key,
            path,
        ) by {
            assert(key.subrange(0, 0) =~= path);
        }
    }
}

/// Sixteen items that are all absent.
pub open spec fn absent_items() -> Seq<Seq<u8>> {
    Seq::new(16, |i: int| empty_rlp())
}

/// What is left of an extension below the nibble `shared` nibbles along it.
pub open spec fn residual_rlp_of(path: Seq<u8>, shared: nat, child: Seq<u8>) -> Seq<u8> {
    extension_rlp(path.skip(shared as int + 1), child)
}

/// The item what is left of an extension is referenced through, which is its child's where nothing
/// of its path is left.
pub open spec fn residual_item(path: Seq<u8>, shared: nat, child: Seq<u8>) -> Seq<u8> {
    if shared + 1 < path.len() {
        reference_of(residual_rlp_of(path, shared, child))
    } else {
        child
    }
}

/// The node that replaces `node_rlp` once `changes`, whose keys have `len` nibbles left here, are
/// applied to it.
#[verifier::opaque]
pub open spec fn updated(
    nodes: Map<[u8; 32], Seq<u8>>,
    node_rlp: Seq<u8>,
    changes: Map<Seq<u8>, Option<Seq<u8>>>,
    len: nat,
) -> Result<Seq<u8>, PathError>
    decreases len, 4nat, 0nat,
{
    if node_rlp == empty_rlp() {
        Ok(trie_rlp(written(changes), len))
    } else {
        match node_of(node_rlp) {
            Err(error) => Err(error),
            Ok(NodeView::Leaf { path, value }) => leaf_updated(
                node_rlp,
                path_of(path),
                value,
                changes,
                len,
            ),
            Ok(NodeView::Extension { path, child }) => extension_updated(
                nodes,
                node_rlp,
                path,
                child,
                changes,
                len,
            ),
            Ok(NodeView::Branch { payload }) => branch_updated(nodes, payload, changes, len),
        }
    }
}

/// Whether the changes are the removal of one key alone.
pub open spec fn lone_removal(changes: Map<Seq<u8>, Option<Seq<u8>>>) -> bool {
    is_single(changes) && changes[the_key(changes)] is None
}

/// The node that replaces a leaf: the leaf as it stands where one key it does not hold is removed,
/// and otherwise the trie of its entry and the changes.
pub open spec fn leaf_updated(
    node_rlp: Seq<u8>,
    path: Seq<u8>,
    value: Seq<u8>,
    changes: Map<Seq<u8>, Option<Seq<u8>>>,
    len: nat,
) -> Result<Seq<u8>, PathError> {
    if path.len() != len {
        Err(PathError::MalformedPath)
    } else if lone_removal(changes) && the_key(changes) != path {
        Ok(node_rlp)
    } else {
        Ok(trie_rlp(overlay(entry(path, value), changes), len))
    }
}

/// The node that replaces an extension, which is a branch where the changes leave its path part way
/// along.
#[verifier::opaque]
pub open spec fn extension_updated(
    nodes: Map<[u8; 32], Seq<u8>>,
    node_rlp: Seq<u8>,
    encoded: Seq<u8>,
    child: Seq<u8>,
    changes: Map<Seq<u8>, Option<Seq<u8>>>,
    len: nat,
) -> Result<Seq<u8>, PathError>
    decreases len, 3nat, 0nat,
{
    let path = path_of(encoded);
    if path.len() == 0 || path.len() > len {
        Err(PathError::MalformedPath)
    } else if all_start_with(changes, path) {
        match child_of(nodes, child) {
            Err(error) => Err(error),
            Ok(child_rlp) => match updated(
                nodes,
                child_rlp,
                below(changes, path),
                (len - path.len()) as nat,
            ) {
                Err(error) => Err(error),
                Ok(below_rlp) => extended(encoded, changes, below_rlp),
            },
        }
    } else {
        split_extension(nodes, node_rlp, path, child, changes, len)
    }
}

/// The node an extension over `below_rlp` becomes, which a removal may leave absorbed.
pub open spec fn extended(
    encoded: Seq<u8>,
    changes: Map<Seq<u8>, Option<Seq<u8>>>,
    below_rlp: Seq<u8>,
) -> Result<Seq<u8>, PathError> {
    if below_rlp == empty_rlp() {
        Ok(empty_rlp())
    } else if has_removal(changes) {
        node_under_of(path_of(encoded), below_rlp, reference_of(below_rlp))
    } else {
        Ok(encoded_extension_rlp(encoded, reference_of(below_rlp)))
    }
}

/// The child what is left of an extension makes, where anything of its path is left.
pub open spec fn residual_child(path: Seq<u8>, shared: nat, child: Seq<u8>) -> Option<
    (u8, Seq<u8>),
> {
    if shared + 1 < path.len() {
        Some((path[shared as int], residual_rlp_of(path, shared, child)))
    } else {
        None
    }
}

/// The node that replaces an extension some key leaves: the extension as it stands where one key it
/// does not hold is removed, and otherwise the branch at the nibble where they part.
#[verifier::opaque]
pub open spec fn split_extension(
    nodes: Map<[u8; 32], Seq<u8>>,
    node_rlp: Seq<u8>,
    path: Seq<u8>,
    child: Seq<u8>,
    changes: Map<Seq<u8>, Option<Seq<u8>>>,
    len: nat,
) -> Result<Seq<u8>, PathError>
    decreases len, 2nat, 0nat,
{
    let shared = agreed_len(changes, path);
    if path.len() > len {
        Err(PathError::MalformedPath)
    } else if lone_removal(changes) {
        Ok(node_rlp)
    } else if is_single(changes) {
        Ok(parted_rlp(path, residual_item(path, shared, child), shared, changes))
    } else {
        proof {
            lemma_agreed_len(changes, path);
        }
        match children_updated(
            nodes,
            absent_items().update(
                path[shared as int] as int,
                residual_item(path, shared, child),
            ),
            below(changes, path.subrange(0, shared as int)),
            (len - shared) as nat,
            residual_child(path, shared, child),
        ) {
            Err(error) => Err(error),
            Ok(below_rlp) => if below_rlp == empty_rlp() {
                Ok(empty_rlp())
            } else {
                node_under_of(
                    path.subrange(0, shared as int),
                    below_rlp,
                    reference_of(below_rlp),
                )
            },
        }
    }
}

/// The branch that parts the one key written from the subtree `item` references, each under the
/// nibble its own path takes `shared` nibbles along.
pub open spec fn parted_rlp(
    path: Seq<u8>,
    item: Seq<u8>,
    shared: nat,
    changes: Map<Seq<u8>, Option<Seq<u8>>>,
) -> Seq<u8> {
    let key = the_key(changes);
    branch_under_rlp(
        key.subrange(0, shared as int),
        absent_items().update(path[shared as int] as int, item).update(
            key[shared as int] as int,
            reference_of(leaf_rlp(key.skip(shared as int + 1), changes[key]->Some_0)),
        ),
    )
}

/// The node that replaces a branch. One change replaces a single child, leaving the bytes of the
/// others as they are unless it is a removal.
#[verifier::opaque]
pub open spec fn branch_updated(
    nodes: Map<[u8; 32], Seq<u8>>,
    payload: Seq<u8>,
    changes: Map<Seq<u8>, Option<Seq<u8>>>,
    len: nat,
) -> Result<Seq<u8>, PathError>
    decreases len, 2nat, 0nat,
{
    if !is_single(changes) {
        match branch_items(payload) {
            Err(error) => Err(error),
            Ok(items) => children_updated(nodes, items, changes, len, None),
        }
    } else if len == 0 {
        Err(PathError::ValueInBranch)
    } else {
        let key = the_key(changes);
        match branch_child(nodes, payload, key[0]) {
            Err(error) => Err(error),
            Ok(child_rlp) => if changes[key] is None {
                match branch_items(payload) {
                    Err(error) => Err(error),
                    Ok(items) => match updated(
                        nodes,
                        child_rlp,
                        below(changes, seq![key[0]]),
                        (len - 1) as nat,
                    ) {
                        Err(error) => Err(error),
                        Ok(below_rlp) => closed_branch(
                            nodes,
                            items.update(key[0] as int, reference_of(below_rlp)),
                            Some((key[0], below_rlp)),
                        ),
                    },
                }
            } else {
                match updated(
                    nodes,
                    child_rlp,
                    below(changes, seq![key[0]]),
                    (len - 1) as nat,
                ) {
                    Err(error) => Err(error),
                    Ok(below_rlp) => spliced_branch(
                        payload,
                        item_start(payload, key[0] as nat)->Ok_0 as int,
                        item_start(payload, (key[0] + 1) as nat)->Ok_0 as int,
                        reference_of(below_rlp),
                    ),
                }
            },
        }
    }
}

/// Whether a collapse can pick a child the changes rebuild, which is where every child they leave
/// alone is already absent.
pub open spec fn collapse_reaches_built(
    items: Seq<Seq<u8>>,
    changes: Map<Seq<u8>, Option<Seq<u8>>>,
) -> bool {
    has_removal(changes) && forall|nibble: u8|
        nibble < 16 ==> (no_keys(#[trigger] below(changes, seq![nibble])) ==> items[nibble as int]
            == empty_rlp())
}

/// The node that replaces the branch over `items`, one of whose children may be `prebuilt`.
#[verifier::opaque]
pub open spec fn children_updated(
    nodes: Map<[u8; 32], Seq<u8>>,
    items: Seq<Seq<u8>>,
    changes: Map<Seq<u8>, Option<Seq<u8>>>,
    len: nat,
    prebuilt: Option<(u8, Seq<u8>)>,
) -> Result<Seq<u8>, PathError>
    decreases len, 1nat, 0nat,
{
    match children_run(nodes, items, changes, len, prebuilt, 16) {
        Err(error) => Err(error),
        Ok((rebuilt, built)) => if has_removal(changes) {
            closed_branch(nodes, rebuilt, if built is Some { built } else { prebuilt })
        } else {
            Ok(branch_rlp(rebuilt))
        },
    }
}

/// The items of a branch once the changes below its first `count` nibbles are applied, and the
/// first child they rebuilt where a collapse could read it.
#[verifier::opaque]
pub open spec fn children_run(
    nodes: Map<[u8; 32], Seq<u8>>,
    items: Seq<Seq<u8>>,
    changes: Map<Seq<u8>, Option<Seq<u8>>>,
    len: nat,
    prebuilt: Option<(u8, Seq<u8>)>,
    count: nat,
) -> Result<(Seq<Seq<u8>>, Option<(u8, Seq<u8>)>), PathError>
    decreases len, 0nat, count,
{
    if count == 0 || len == 0 {
        Ok((items, None))
    } else {
        let nibble = (count - 1) as u8;
        match children_run(nodes, items, changes, len, prebuilt, (count - 1) as nat) {
            Err(error) => Err(error),
            Ok((rebuilt, built)) => if no_keys(below(changes, seq![nibble])) {
                Ok((rebuilt, built))
            } else {
                match child_at(nodes, items, prebuilt, nibble) {
                    Err(error) => Err(error),
                    Ok(child_rlp) => match updated(
                        nodes,
                        child_rlp,
                        below(changes, seq![nibble]),
                        (len - 1) as nat,
                    ) {
                        Err(error) => Err(error),
                        Ok(below_rlp) => ran_child(
                            rebuilt,
                            built,
                            collapse_reaches_built(items, changes),
                            nibble,
                            below_rlp,
                        ),
                    },
                }
            },
        }
    }
}

/// The items and the kept child once the child at `nibble` came to `below_rlp`.
pub open spec fn ran_child(
    rebuilt: Seq<Seq<u8>>,
    built: Option<(u8, Seq<u8>)>,
    keeps: bool,
    nibble: u8,
    below_rlp: Seq<u8>,
) -> Result<(Seq<Seq<u8>>, Option<(u8, Seq<u8>)>), PathError> {
    let items = rebuilt.update(nibble as int, reference_of(below_rlp));
    if keeps && built is None && below_rlp != empty_rlp() {
        if below_rlp.len() > MAX_BRANCH_RLP {
            Err(PathError::OversizedNode)
        } else {
            Ok((items, Some((nibble, below_rlp))))
        }
    } else {
        Ok((items, built))
    }
}

/// A part of the path every key starts with, and with no nibble more, is the longest there is.
pub proof fn lemma_agreed_is<V>(changes: Map<Seq<u8>, V>, path: Seq<u8>, shared: nat)
    requires
        shared < path.len(),
        all_start_with(changes, path.subrange(0, shared as int)),
        !all_start_with(changes, path.subrange(0, shared as int + 1)),
    ensures
        agreed_len(changes, path) == shared,
        !all_start_with(changes, path),
{
    lemma_agreed_len(changes, path);
    let agreed = agreed_len(changes, path);
    if agreed > shared {
        assert(path.subrange(0, agreed as int).subrange(0, shared as int + 1) =~= path.subrange(
            0,
            shared as int + 1,
        ));
        lemma_starts_with_less(
            changes,
            path.subrange(0, agreed as int),
            path.subrange(0, shared as int + 1),
        );
    } else if agreed < shared {
        assert(path.subrange(0, shared as int).subrange(0, agreed as int + 1) =~= path.subrange(
            0,
            agreed as int + 1,
        ));
        lemma_starts_with_less(
            changes,
            path.subrange(0, shared as int),
            path.subrange(0, agreed as int + 1),
        );
    }
}

/// Keys that start with a path start with the front of it.
proof fn lemma_starts_with_less<V>(changes: Map<Seq<u8>, V>, path: Seq<u8>, front: Seq<u8>)
    requires
        all_start_with(changes, path),
        starts_with(path, front),
    ensures
        all_start_with(changes, front),
{
    assert forall|key: Seq<u8>| #[trigger] changes.contains_key(key) implies starts_with(
        key,
        front,
    ) by {
        assert(starts_with(key, path));
        assert(key.subrange(0, front.len() as int) =~= key.subrange(
            0,
            path.len() as int,
        ).subrange(0, front.len() as int));
    }
}

/// An update is told by the kind of node it is of.
pub proof fn lemma_updated(
    nodes: Map<[u8; 32], Seq<u8>>,
    node_rlp: Seq<u8>,
    changes: Map<Seq<u8>, Option<Seq<u8>>>,
    len: nat,
)
    ensures
        node_rlp == empty_rlp() ==> updated(nodes, node_rlp, changes, len) == Ok::<
            Seq<u8>,
            PathError,
        >(trie_rlp(written(changes), len)),
        node_rlp != empty_rlp() ==> updated(nodes, node_rlp, changes, len) == match node_of(
            node_rlp,
        ) {
            Err(error) => Err(error),
            Ok(NodeView::Leaf { path, value }) => leaf_updated(
                node_rlp,
                path_of(path),
                value,
                changes,
                len,
            ),
            Ok(NodeView::Extension { path, child }) => extension_updated(
                nodes,
                node_rlp,
                path,
                child,
                changes,
                len,
            ),
            Ok(NodeView::Branch { payload }) => branch_updated(nodes, payload, changes, len),
        },
{
    reveal(updated);
    reveal(extension_updated);
    reveal(split_extension);
    reveal(branch_updated);
    reveal(children_updated);
    reveal(children_run);
}

/// An extension every key follows keeps its path over what its child becomes.
pub proof fn lemma_extension_follows(
    nodes: Map<[u8; 32], Seq<u8>>,
    node_rlp: Seq<u8>,
    encoded: Seq<u8>,
    child: Seq<u8>,
    changes: Map<Seq<u8>, Option<Seq<u8>>>,
    len: nat,
)
    requires
        0 < path_of(encoded).len() <= len,
        all_start_with(changes, path_of(encoded)),
    ensures
        extension_updated(nodes, node_rlp, encoded, child, changes, len) == match child_of(
            nodes,
            child,
        ) {
            Err(error) => Err(error),
            Ok(child_rlp) => match updated(
                nodes,
                child_rlp,
                below(changes, path_of(encoded)),
                (len - path_of(encoded).len()) as nat,
            ) {
                Err(error) => Err(error),
                Ok(below_rlp) => extended(encoded, changes, below_rlp),
            },
        },
{
    reveal(updated);
    reveal(extension_updated);
    reveal(split_extension);
    reveal(branch_updated);
    reveal(children_updated);
    reveal(children_run);
}

/// A split extension is told by how many keys there are.
pub proof fn lemma_split_extension(
    nodes: Map<[u8; 32], Seq<u8>>,
    node_rlp: Seq<u8>,
    path: Seq<u8>,
    child: Seq<u8>,
    changes: Map<Seq<u8>, Option<Seq<u8>>>,
    len: nat,
)
    requires
        path.len() <= len,
    ensures
        lone_removal(changes) ==> split_extension(nodes, node_rlp, path, child, changes, len)
            == Ok::<Seq<u8>, PathError>(node_rlp),
        is_single(changes) && !lone_removal(changes) ==> split_extension(
            nodes,
            node_rlp,
            path,
            child,
            changes,
            len,
        ) == Ok::<Seq<u8>, PathError>(
            parted_rlp(
                path,
                residual_item(path, agreed_len(changes, path), child),
                agreed_len(changes, path),
                changes,
            ),
        ),
        !is_single(changes) ==> split_extension(nodes, node_rlp, path, child, changes, len) == ({
            let shared = agreed_len(changes, path);
            match children_updated(
                nodes,
                absent_items().update(
                    path[shared as int] as int,
                    residual_item(path, shared, child),
                ),
                below(changes, path.subrange(0, shared as int)),
                (len - shared) as nat,
                residual_child(path, shared, child),
            ) {
                Err(error) => Err(error),
                Ok(below_rlp) => if below_rlp == empty_rlp() {
                    Ok(empty_rlp())
                } else {
                    node_under_of(
                        path.subrange(0, shared as int),
                        below_rlp,
                        reference_of(below_rlp),
                    )
                },
            }
        }),
{
    reveal(updated);
    reveal(extension_updated);
    reveal(split_extension);
    reveal(branch_updated);
    reveal(children_updated);
    reveal(children_run);
}

/// An extension some key leaves is split where it does.
pub proof fn lemma_extension_parts(
    nodes: Map<[u8; 32], Seq<u8>>,
    node_rlp: Seq<u8>,
    encoded: Seq<u8>,
    child: Seq<u8>,
    changes: Map<Seq<u8>, Option<Seq<u8>>>,
    len: nat,
)
    ensures
        path_of(encoded).len() > len ==> extension_updated(
            nodes,
            node_rlp,
            encoded,
            child,
            changes,
            len,
        ) == Err::<Seq<u8>, PathError>(PathError::MalformedPath),
        0 < path_of(encoded).len() <= len && !all_start_with(changes, path_of(encoded))
            ==> extension_updated(nodes, node_rlp, encoded, child, changes, len) == split_extension(
            nodes,
            node_rlp,
            path_of(encoded),
            child,
            changes,
            len,
        ),
{
    reveal(updated);
    reveal(extension_updated);
    reveal(split_extension);
    reveal(branch_updated);
    reveal(children_updated);
    reveal(children_run);
}

/// Only the removal of one key alone hands an extension back as it stands.
pub proof fn lemma_extension_any(
    nodes: Map<[u8; 32], Seq<u8>>,
    encoded: Seq<u8>,
    child: Seq<u8>,
    changes: Map<Seq<u8>, Option<Seq<u8>>>,
    len: nat,
)
    requires
        !lone_removal(changes),
    ensures
        forall|node_rlp: Seq<u8>| #[trigger]
            extension_updated(nodes, node_rlp, encoded, child, changes, len) == extension_updated(
                nodes,
                Seq::empty(),
                encoded,
                child,
                changes,
                len,
            ),
{
    reveal(updated);
    reveal(extension_updated);
    reveal(split_extension);
    reveal(branch_updated);
    reveal(children_updated);
    reveal(children_run);
}

/// The branch over the items a change set rebuilt.
pub proof fn lemma_children_updated(
    nodes: Map<[u8; 32], Seq<u8>>,
    items: Seq<Seq<u8>>,
    changes: Map<Seq<u8>, Option<Seq<u8>>>,
    len: nat,
    prebuilt: Option<(u8, Seq<u8>)>,
)
    ensures
        children_updated(nodes, items, changes, len, prebuilt) == match children_run(
            nodes,
            items,
            changes,
            len,
            prebuilt,
            16,
        ) {
            Err(error) => Err(error),
            Ok((rebuilt, built)) => if has_removal(changes) {
                closed_branch(nodes, rebuilt, if built is Some { built } else { prebuilt })
            } else {
                Ok(branch_rlp(rebuilt))
            },
        },
{
    reveal(updated);
    reveal(extension_updated);
    reveal(split_extension);
    reveal(branch_updated);
    reveal(children_updated);
    reveal(children_run);
}

/// The items of a branch one nibble further.
pub proof fn lemma_children_run(
    nodes: Map<[u8; 32], Seq<u8>>,
    items: Seq<Seq<u8>>,
    changes: Map<Seq<u8>, Option<Seq<u8>>>,
    len: nat,
    prebuilt: Option<(u8, Seq<u8>)>,
    nibble: u8,
)
    requires
        len > 0,
    ensures
        children_run(nodes, items, changes, len, prebuilt, 0) == Ok::<
            (Seq<Seq<u8>>, Option<(u8, Seq<u8>)>),
            PathError,
        >((items, None)),
        children_run(nodes, items, changes, len, prebuilt, (nibble + 1) as nat) == match children_run(
            nodes,
            items,
            changes,
            len,
            prebuilt,
            nibble as nat,
        ) {
            Err(error) => Err(error),
            Ok((rebuilt, built)) => if no_keys(below(changes, seq![nibble])) {
                Ok((rebuilt, built))
            } else {
                match child_at(nodes, items, prebuilt, nibble) {
                    Err(error) => Err(error),
                    Ok(child_rlp) => match updated(
                        nodes,
                        child_rlp,
                        below(changes, seq![nibble]),
                        (len - 1) as nat,
                    ) {
                        Err(error) => Err(error),
                        Ok(below_rlp) => ran_child(
                            rebuilt,
                            built,
                            collapse_reaches_built(items, changes),
                            nibble,
                            below_rlp,
                        ),
                    },
                }
            },
        },
{
    reveal(updated);
    reveal(extension_updated);
    reveal(split_extension);
    reveal(branch_updated);
    reveal(children_updated);
    reveal(children_run);
    assert((nibble + 1 - 1) as u8 == nibble);
}

/// A branch one change reaches has that child replaced.
pub proof fn lemma_branch_one(
    nodes: Map<[u8; 32], Seq<u8>>,
    payload: Seq<u8>,
    changes: Map<Seq<u8>, Option<Seq<u8>>>,
    len: nat,
)
    requires
        is_single(changes),
    ensures
        len == 0 ==> branch_updated(nodes, payload, changes, len) == Err::<Seq<u8>, PathError>(
            PathError::ValueInBranch,
        ),
        len > 0 ==> branch_updated(nodes, payload, changes, len) == ({
            let key = the_key(changes);
            let removes = changes[key] is None;
            match branch_child(nodes, payload, key[0]) {
                Err(error) => Err(error),
                Ok(child_rlp) => if removes && branch_items(payload) is Err {
                    Err(branch_items(payload)->Err_0)
                } else {
                    match updated(
                        nodes,
                        child_rlp,
                        below(changes, seq![key[0]]),
                        (len - 1) as nat,
                    ) {
                        Err(error) => Err(error),
                        Ok(below_rlp) => if removes {
                            closed_branch(
                                nodes,
                                branch_items(payload)->Ok_0.update(
                                    key[0] as int,
                                    reference_of(below_rlp),
                                ),
                                Some((key[0], below_rlp)),
                            )
                        } else {
                            spliced_branch(
                                payload,
                                item_start(payload, key[0] as nat)->Ok_0 as int,
                                item_start(payload, (key[0] + 1) as nat)->Ok_0 as int,
                                reference_of(below_rlp),
                            )
                        },
                    }
                },
            }
        }),
{
    reveal(updated);
    reveal(extension_updated);
    reveal(split_extension);
    reveal(branch_updated);
    reveal(children_updated);
    reveal(children_run);
}

/// A branch more than one change reaches has its items rebuilt.
pub proof fn lemma_branch_many(
    nodes: Map<[u8; 32], Seq<u8>>,
    payload: Seq<u8>,
    changes: Map<Seq<u8>, Option<Seq<u8>>>,
    len: nat,
)
    requires
        !is_single(changes),
    ensures
        branch_updated(nodes, payload, changes, len) == match branch_items(payload) {
            Err(error) => Err(error),
            Ok(items) => children_updated(nodes, items, changes, len, None),
        },
{
    reveal(updated);
    reveal(extension_updated);
    reveal(split_extension);
    reveal(branch_updated);
    reveal(children_updated);
    reveal(children_run);
}

/// Nibbles no change reaches leave a branch as it is.
pub proof fn lemma_run_skips(
    nodes: Map<[u8; 32], Seq<u8>>,
    items: Seq<Seq<u8>>,
    changes: Map<Seq<u8>, Option<Seq<u8>>>,
    len: nat,
    prebuilt: Option<(u8, Seq<u8>)>,
    from: nat,
    to: nat,
)
    requires
        from <= to <= 16,
        forall|nibble: u8|
            from <= nibble < to ==> no_keys(#[trigger] below(changes, seq![nibble])),
    ensures
        children_run(nodes, items, changes, len, prebuilt, to) == children_run(
            nodes,
            items,
            changes,
            len,
            prebuilt,
            from,
        ),
    decreases to,
{
    reveal(updated);
    reveal(extension_updated);
    reveal(split_extension);
    reveal(branch_updated);
    reveal(children_updated);
    reveal(children_run);
    if from < to && len > 0 {
        lemma_run_skips(nodes, items, changes, len, prebuilt, from, (to - 1) as nat);
        let nibble = (to - 1) as u8;
        assert(no_keys(below(changes, seq![nibble])));
    }
}

/// A branch that fails at one nibble fails as a whole.
pub proof fn lemma_run_fails(
    nodes: Map<[u8; 32], Seq<u8>>,
    items: Seq<Seq<u8>>,
    changes: Map<Seq<u8>, Option<Seq<u8>>>,
    len: nat,
    prebuilt: Option<(u8, Seq<u8>)>,
    count: nat,
    later: nat,
)
    requires
        count <= later,
        children_run(nodes, items, changes, len, prebuilt, count) is Err,
    ensures
        children_run(nodes, items, changes, len, prebuilt, later) == children_run(
            nodes,
            items,
            changes,
            len,
            prebuilt,
            count,
        ),
    decreases later,
{
    reveal(updated);
    reveal(extension_updated);
    reveal(split_extension);
    reveal(branch_updated);
    reveal(children_updated);
    reveal(children_run);
    if count < later {
        lemma_run_fails(nodes, items, changes, len, prebuilt, count, (later - 1) as nat);
    }
}

/// Where a key has no nibble left, removing it leaves nothing.
pub proof fn lemma_removed_at_end(
    nodes: Map<[u8; 32], Seq<u8>>,
    node_rlp: Seq<u8>,
    changes: Map<Seq<u8>, Option<Seq<u8>>>,
)
    requires
        only_key(changes, Seq::empty()),
        changes[Seq::empty()] is None,
    ensures
        updated(nodes, node_rlp, changes, 0) matches Ok(bytes) ==> bytes == empty_rlp(),
{
    reveal(updated);
    reveal(extension_updated);
    reveal(split_extension);
    reveal(branch_updated);
    reveal(children_updated);
    reveal(children_run);
    let key = the_key(changes);
    assert(only_key(changes, key));
    assert(changes.contains_key(Seq::empty()));
    assert(key == Seq::<u8>::empty());
    assert forall|other: Seq<u8>| !written(changes).contains_key(other) by {
        if changes.contains_key(other) {
            assert(other == key);
        }
    }
    lemma_trie_empty(written(changes), 0);
    match node_of(node_rlp) {
        Ok(NodeView::Leaf { path, value }) => {
            let entries = overlay(entry(path_of(path), value), changes);
            if path_of(path).len() == 0 {
                assert(path_of(path) =~= key);
                assert forall|other: Seq<u8>| !entries.contains_key(other) by {
                    if changes.contains_key(other) {
                        assert(other == key);
                    }
                }
                lemma_trie_empty(entries, 0);
            }
        },
        _ => {},
    }
}

} // verus!
