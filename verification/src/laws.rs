//! What reads and updates promise of the trie a witness was taken from.
//!
//! A witness is faithful to a trie where every node of that trie it has an entry for under the
//! node's own hash is that node. Indexing a witness by the hash of each node makes it so, unless
//! two nodes hash alike.

use vstd::prelude::*;

use crate::changes::lemma_unpacked;
use crate::error::PathError;
use crate::keccak::{empty_root, keccak};
use crate::nibbles::{unpacked, MAX_NIBBLES};
use crate::outcome::{
    applicable, complete, faithful, law_update, law_walk, missing, node_at_path, Reach,
};
use crate::path::{indexed, trie_read, updated_root};
use crate::recorded::recordable;
use crate::trie::{
    lemma_below_nothing, lemma_overlay_nothing, lemma_trie_empty, no_keys, overlay, trie_rlp,
};

verus! {

/// Whether `root` commits to the trie of `entries` and the witness answers no hash of it with
/// another node. A root that is the empty trie's is one of a trie that holds nothing.
pub open spec fn commits(
    nodes: Map<[u8; 32], Seq<u8>>,
    root: [u8; 32],
    entries: Map<Seq<u8>, Seq<u8>>,
) -> bool {
    &&& recordable(entries, MAX_NIBBLES as nat)
    &&& root == keccak(trie_rlp(entries, MAX_NIBBLES as nat))
    &&& root == empty_root() ==> no_keys(entries)
    &&& nodes.contains_key(root) ==> nodes[root] == trie_rlp(entries, MAX_NIBBLES as nat)
    &&& faithful(nodes, entries, MAX_NIBBLES as nat)
}

/// Whether the witness holds the root of the trie and every other node of it that is asked for.
pub open spec fn holds_trie(
    nodes: Map<[u8; 32], Seq<u8>>,
    root: [u8; 32],
    entries: Map<Seq<u8>, Seq<u8>>,
    reach: Reach,
) -> bool {
    &&& no_keys(entries) || nodes.contains_key(root)
    &&& complete(nodes, entries, MAX_NIBBLES as nat, reach)
}

/// Whether `error` is that of a node of the trie, its root among them, that is asked for and the
/// witness does not hold.
pub open spec fn lacks(
    nodes: Map<[u8; 32], Seq<u8>>,
    root: [u8; 32],
    entries: Map<Seq<u8>, Seq<u8>>,
    reach: Reach,
    error: PathError,
) -> bool {
    ||| !no_keys(entries) && !nodes.contains_key(root) && error == PathError::NodeNotResolved(root)
    ||| missing(nodes, entries, MAX_NIBBLES as nat, reach, error)
}

/// What entries hold under a key.
pub open spec fn held<V>(entries: Map<Seq<u8>, V>, key: Seq<u8>) -> Option<V> {
    if entries.contains_key(key) {
        Some(entries[key])
    } else {
        None
    }
}

/// A read of a trie finds what the trie holds, or the witness lacks a node along the key. A witness
/// that holds those is enough, whatever else of the trie it leaves out.
pub proof fn law_read(
    nodes: Map<[u8; 32], Seq<u8>>,
    root: [u8; 32],
    entries: Map<Seq<u8>, Seq<u8>>,
    key: [u8; 32],
)
    requires
        commits(nodes, root, entries),
    ensures
        match trie_read(nodes, root, unpacked(key@)) {
            Ok(value) => value == held(entries, unpacked(key@)),
            Err(error) => lacks(nodes, root, entries, Reach::of_key(unpacked(key@)), error),
        },
        holds_trie(nodes, root, entries, Reach::of_key(unpacked(key@))) ==> trie_read(
            nodes,
            root,
            unpacked(key@),
        ) == Ok::<Option<Seq<u8>>, PathError>(held(entries, unpacked(key@))),
{
    lemma_unpacked(key@);
    if root != empty_root() {
        law_walk(nodes, entries, 64, unpacked(key@));
        lemma_root_filled(entries);
    }
}

/// A trie that holds nothing has the root of one that does.
proof fn lemma_root_filled(entries: Map<Seq<u8>, Seq<u8>>)
    ensures
        no_keys(entries) ==> keccak(trie_rlp(entries, 64)) == empty_root(),
{
    if no_keys(entries) {
        lemma_trie_empty(entries, 64);
    }
}

/// An update of a trie comes to the root of the trie with the changes made, or the witness lacks a
/// node along a changed key or, where a key is removed, one beside such a node. A witness that holds
/// those is enough, whatever else of the trie it leaves out. With no change at all the root is the
/// one there was.
pub proof fn law_update_root(
    nodes: Map<[u8; 32], Seq<u8>>,
    root: [u8; 32],
    entries: Map<Seq<u8>, Seq<u8>>,
    changes: Map<Seq<u8>, Option<Seq<u8>>>,
)
    requires
        commits(nodes, root, entries),
        applicable(changes, MAX_NIBBLES as nat),
    ensures
        match updated_root(nodes, root, changes) {
            Ok(after) => after == keccak(
                trie_rlp(overlay(entries, changes), MAX_NIBBLES as nat),
            ),
            Err(error) => lacks(nodes, root, entries, Reach::of_changes(changes), error),
        },
        holds_trie(nodes, root, entries, Reach::of_changes(changes)) ==> updated_root(
            nodes,
            root,
            changes,
        ) == Ok::<[u8; 32], PathError>(
            keccak(trie_rlp(overlay(entries, changes), MAX_NIBBLES as nat)),
        ),
        no_keys(changes) ==> updated_root(nodes, root, changes) == Ok::<[u8; 32], PathError>(root),
{
    lemma_root_filled(entries);
    if no_keys(changes) {
        lemma_overlay_nothing(entries, changes);
    } else {
        law_update(nodes, entries, changes, 64);
        if root == empty_root() {
            lemma_trie_empty(entries, 64);
        }
    }
}

/// A read in the trie an update came to gives back what the update wrote, and otherwise what was
/// there before it.
pub proof fn law_read_after_update(
    nodes: Map<[u8; 32], Seq<u8>>,
    root: [u8; 32],
    entries: Map<Seq<u8>, Seq<u8>>,
    changes: Map<Seq<u8>, Option<Seq<u8>>>,
    later: Map<[u8; 32], Seq<u8>>,
    key: [u8; 32],
)
    requires
        commits(nodes, root, entries),
        applicable(changes, MAX_NIBBLES as nat),
        updated_root(nodes, root, changes) is Ok,
        commits(later, updated_root(nodes, root, changes)->Ok_0, overlay(entries, changes)),
        holds_trie(
            later,
            updated_root(nodes, root, changes)->Ok_0,
            overlay(entries, changes),
            Reach::of_key(unpacked(key@)),
        ),
    ensures
        trie_read(later, updated_root(nodes, root, changes)->Ok_0, unpacked(key@)) == Ok::<
            Option<Seq<u8>>,
            PathError,
        >(
            if changes.contains_key(unpacked(key@)) {
                changes[unpacked(key@)]
            } else {
                held(entries, unpacked(key@))
            },
        ),
{
    law_read(
        later,
        updated_root(nodes, root, changes)->Ok_0,
        overlay(entries, changes),
        key,
    );
}

/// Removing every key leaves the root of a trie that holds nothing.
pub proof fn law_remove_all(
    nodes: Map<[u8; 32], Seq<u8>>,
    root: [u8; 32],
    entries: Map<Seq<u8>, Seq<u8>>,
    changes: Map<Seq<u8>, Option<Seq<u8>>>,
)
    requires
        commits(nodes, root, entries),
        holds_trie(nodes, root, entries, Reach::of_changes(changes)),
        applicable(changes, MAX_NIBBLES as nat),
        forall|key: Seq<u8>| #[trigger]
            entries.contains_key(key) ==> changes.contains_key(key),
        forall|key: Seq<u8>| #[trigger] changes.contains_key(key) ==> changes[key] is None,
    ensures
        updated_root(nodes, root, changes) == Ok::<[u8; 32], PathError>(empty_root()),
{
    law_update_root(nodes, root, entries, changes);
    assert(no_keys(overlay(entries, changes)));
    lemma_root_filled(overlay(entries, changes));
}

/// Changes that leave every key as it was leave the root as it was: writing what is already there,
/// and removing what is not.
pub proof fn law_no_effect(
    nodes: Map<[u8; 32], Seq<u8>>,
    root: [u8; 32],
    entries: Map<Seq<u8>, Seq<u8>>,
    changes: Map<Seq<u8>, Option<Seq<u8>>>,
)
    requires
        commits(nodes, root, entries),
        applicable(changes, MAX_NIBBLES as nat),
        forall|key: Seq<u8>| #[trigger]
            changes.contains_key(key) ==> changes[key] == held(entries, key),
    ensures
        updated_root(nodes, root, changes) matches Ok(after) ==> after == root,
        holds_trie(nodes, root, entries, Reach::of_changes(changes)) ==> updated_root(
            nodes,
            root,
            changes,
        ) == Ok::<[u8; 32], PathError>(root),
{
    law_update_root(nodes, root, entries, changes);
    assert(overlay(entries, changes) =~= entries);
}

/// Two updates one after the other come to the root one update with both sets of changes comes to,
/// the later of two changes to a key standing.
pub proof fn law_updates_compose(
    nodes: Map<[u8; 32], Seq<u8>>,
    root: [u8; 32],
    entries: Map<Seq<u8>, Seq<u8>>,
    first: Map<Seq<u8>, Option<Seq<u8>>>,
    later: Map<[u8; 32], Seq<u8>>,
    second: Map<Seq<u8>, Option<Seq<u8>>>,
)
    requires
        commits(nodes, root, entries),
        applicable(first, MAX_NIBBLES as nat),
        applicable(second, MAX_NIBBLES as nat),
        updated_root(nodes, root, first) is Ok,
        commits(later, updated_root(nodes, root, first)->Ok_0, overlay(entries, first)),
        updated_root(later, updated_root(nodes, root, first)->Ok_0, second) is Ok,
        updated_root(nodes, root, first.union_prefer_right(second)) is Ok,
    ensures
        updated_root(later, updated_root(nodes, root, first)->Ok_0, second) == updated_root(
            nodes,
            root,
            first.union_prefer_right(second),
        ),
{
    let both = first.union_prefer_right(second);
    let between = updated_root(nodes, root, first)->Ok_0;
    assert(applicable(both, MAX_NIBBLES as nat));
    law_update_root(later, between, overlay(entries, first), second);
    law_update_root(nodes, root, entries, both);
    assert(overlay(overlay(entries, first), second) =~= overlay(entries, both));
}

/// Two updates that change no key in common come to the same root in either order.
pub proof fn law_order_does_not_matter(
    nodes: Map<[u8; 32], Seq<u8>>,
    root: [u8; 32],
    entries: Map<Seq<u8>, Seq<u8>>,
    left: Map<Seq<u8>, Option<Seq<u8>>>,
    right: Map<Seq<u8>, Option<Seq<u8>>>,
    after_left: Map<[u8; 32], Seq<u8>>,
    after_right: Map<[u8; 32], Seq<u8>>,
)
    requires
        commits(nodes, root, entries),
        applicable(left, MAX_NIBBLES as nat),
        applicable(right, MAX_NIBBLES as nat),
        left.dom().disjoint(right.dom()),
        updated_root(nodes, root, left) is Ok,
        updated_root(nodes, root, right) is Ok,
        commits(after_left, updated_root(nodes, root, left)->Ok_0, overlay(entries, left)),
        commits(after_right, updated_root(nodes, root, right)->Ok_0, overlay(entries, right)),
        updated_root(after_left, updated_root(nodes, root, left)->Ok_0, right) is Ok,
        updated_root(after_right, updated_root(nodes, root, right)->Ok_0, left) is Ok,
    ensures
        updated_root(after_left, updated_root(nodes, root, left)->Ok_0, right) == updated_root(
            after_right,
            updated_root(nodes, root, right)->Ok_0,
            left,
        ),
{
    law_update_root(
        after_left,
        updated_root(nodes, root, left)->Ok_0,
        overlay(entries, left),
        right,
    );
    law_update_root(
        after_right,
        updated_root(nodes, root, right)->Ok_0,
        overlay(entries, right),
        left,
    );
    assert forall|key: Seq<u8>| !(left.contains_key(key) && right.contains_key(key)) by {
        if left.contains_key(key) && right.contains_key(key) {
            assert(left.dom().contains(key) && right.dom().contains(key));
        }
    }
    assert(overlay(overlay(entries, left), right) =~= overlay(overlay(entries, right), left));
}

/// The change made to one key.
pub open spec fn change_of(changes: Map<Seq<u8>, Option<Seq<u8>>>, key: Seq<u8>) -> Map<
    Seq<u8>,
    Option<Seq<u8>>,
> {
    Map::empty().insert(key, changes[key])
}

/// The root the trie comes to where the changes to the keys of `order` are made one after another,
/// each against a witness of its own.
pub open spec fn updated_one_by_one(
    witnesses: Seq<Map<[u8; 32], Seq<u8>>>,
    root: [u8; 32],
    changes: Map<Seq<u8>, Option<Seq<u8>>>,
    order: Seq<Seq<u8>>,
) -> Result<[u8; 32], PathError>
    decreases order.len(),
{
    if order.len() == 0 {
        Ok(root)
    } else {
        match updated_one_by_one(witnesses, root, changes, order.drop_last()) {
            Err(error) => Err(error),
            Ok(between) => updated_root(
                witnesses[order.len() - 1],
                between,
                change_of(changes, order.last()),
            ),
        }
    }
}

/// The entries once the changes to the keys of `order` are made.
pub open spec fn changed_so_far(
    entries: Map<Seq<u8>, Seq<u8>>,
    changes: Map<Seq<u8>, Option<Seq<u8>>>,
    order: Seq<Seq<u8>>,
) -> Map<Seq<u8>, Seq<u8>> {
    overlay(entries, changes.restrict(order.to_set()))
}

/// Whether each witness is one of the trie as the changes before it leave it.
pub open spec fn commit_in_turn(
    witnesses: Seq<Map<[u8; 32], Seq<u8>>>,
    entries: Map<Seq<u8>, Seq<u8>>,
    changes: Map<Seq<u8>, Option<Seq<u8>>>,
    order: Seq<Seq<u8>>,
) -> bool {
    forall|i: int|
        0 <= i < order.len() ==> commits(
            #[trigger] witnesses[i],
            keccak(trie_rlp(changed_so_far(entries, changes, order.take(i)), MAX_NIBBLES as nat)),
            changed_so_far(entries, changes, order.take(i)),
        )
}

/// A batch comes to the root its changes come to one at a time, in whatever order they are made.
pub proof fn law_one_at_a_time(
    nodes: Map<[u8; 32], Seq<u8>>,
    root: [u8; 32],
    entries: Map<Seq<u8>, Seq<u8>>,
    changes: Map<Seq<u8>, Option<Seq<u8>>>,
    order: Seq<Seq<u8>>,
    witnesses: Seq<Map<[u8; 32], Seq<u8>>>,
)
    requires
        commits(nodes, root, entries),
        applicable(changes, MAX_NIBBLES as nat),
        changes.dom() == order.to_set(),
        commit_in_turn(witnesses, entries, changes, order),
        updated_one_by_one(witnesses, root, changes, order) is Ok,
        updated_root(nodes, root, changes) is Ok,
    ensures
        updated_one_by_one(witnesses, root, changes, order) == updated_root(nodes, root, changes),
{
    lemma_one_by_one(root, entries, changes, order, witnesses);
    law_update_root(nodes, root, entries, changes);
    assert(changes.restrict(order.to_set()) =~= changes);
}

/// Changes made one at a time come to the root of the trie they leave.
proof fn lemma_one_by_one(
    root: [u8; 32],
    entries: Map<Seq<u8>, Seq<u8>>,
    changes: Map<Seq<u8>, Option<Seq<u8>>>,
    order: Seq<Seq<u8>>,
    witnesses: Seq<Map<[u8; 32], Seq<u8>>>,
)
    requires
        root == keccak(trie_rlp(entries, MAX_NIBBLES as nat)),
        applicable(changes, MAX_NIBBLES as nat),
        order.to_set().subset_of(changes.dom()),
        commit_in_turn(witnesses, entries, changes, order),
        updated_one_by_one(witnesses, root, changes, order) is Ok,
    ensures
        updated_one_by_one(witnesses, root, changes, order)->Ok_0 == keccak(
            trie_rlp(changed_so_far(entries, changes, order), MAX_NIBBLES as nat),
        ),
    decreases order.len(),
{
    if order.len() == 0 {
        assert(changed_so_far(entries, changes, order) =~= entries);
    } else {
        let earlier = order.drop_last();
        let last = order.last();
        let before = changed_so_far(entries, changes, earlier);
        let one = change_of(changes, last);
        assert forall|i: int| 0 <= i < earlier.len() implies commits(
            #[trigger] witnesses[i],
            keccak(trie_rlp(changed_so_far(entries, changes, earlier.take(i)), MAX_NIBBLES as nat)),
            changed_so_far(entries, changes, earlier.take(i)),
        ) by {
            assert(earlier.take(i) =~= order.take(i));
        }
        assert(order.to_set().contains(last));
        assert forall|key: Seq<u8>| #[trigger]
            earlier.to_set().contains(key) implies order.to_set().contains(key) by {
            let i = choose|i: int| 0 <= i < earlier.len() && earlier[i] == key;
            assert(order[i] == key);
        }
        assert forall|key: Seq<u8>| #[trigger] order.to_set().contains(key) implies key == last
            || earlier.to_set().contains(key) by {
            let i = choose|i: int| 0 <= i < order.len() && order[i] == key;
            if i < order.len() - 1 {
                assert(earlier[i] == key);
            }
        }
        lemma_one_by_one(root, entries, changes, earlier, witnesses);
        assert(order.take(order.len() - 1) =~= earlier);
        assert(applicable(one, MAX_NIBBLES as nat)) by {
            assert(changes.contains_key(last));
        }
        let witness = witnesses[order.len() - 1];
        law_update_root(
            witness,
            keccak(trie_rlp(before, MAX_NIBBLES as nat)),
            before,
            one,
        );
        assert(overlay(before, one) =~= changed_so_far(entries, changes, order));
    }
}

/// Every node of a witness is indexed under its own hash, and nothing else is.
pub proof fn law_indexed_by_hash(state: Seq<Vec<u8>>, count: nat)
    requires
        count <= state.len(),
    ensures
        forall|digest: [u8; 32]| #[trigger]
            indexed(state, count).contains_key(digest) ==> keccak(indexed(state, count)[digest])
                == digest && exists|i: int|
                0 <= i < count && (#[trigger] state[i])@ == indexed(state, count)[digest],
        forall|i: int|
            0 <= i < count ==> indexed(state, count).contains_key(keccak((#[trigger] state[i])@)),
    decreases count,
{
    if count > 0 {
        let before = (count - 1) as nat;
        law_indexed_by_hash(state, before);
        let last = state[count - 1]@;
        assert forall|digest: [u8; 32]| #[trigger] indexed(state, count).contains_key(
            digest,
        ) implies keccak(indexed(state, count)[digest]) == digest && exists|i: int|
            0 <= i < count && (#[trigger] state[i])@ == indexed(state, count)[digest] by {
            if digest == keccak(last) {
                assert(state[count - 1]@ == indexed(state, count)[digest]);
            } else {
                let i = choose|i: int|
                    0 <= i < before && (#[trigger] state[i])@ == indexed(state, before)[digest];
                assert(state[i]@ == indexed(state, count)[digest]);
            }
        }
    }
}

/// Whether no node of a witness hashes to the hash of another node of the trie.
pub open spec fn collision_free(state: Seq<Vec<u8>>, entries: Map<Seq<u8>, Seq<u8>>) -> bool {
    forall|i: int, path: Seq<u8>|
        0 <= i < state.len() && path.len() <= MAX_NIBBLES && keccak((#[trigger] state[i])@)
            == keccak(#[trigger] node_at_path(entries, MAX_NIBBLES as nat, path)) ==> state[i]@
            == node_at_path(entries, MAX_NIBBLES as nat, path)
}

/// Whether a trie is one whose hashes a witness cannot pass off as another's: no node of the witness
/// collides with one of the trie, and only a trie that holds nothing has the empty trie's root.
pub open spec fn told_by_hash(state: Seq<Vec<u8>>, entries: Map<Seq<u8>, Seq<u8>>) -> bool {
    &&& collision_free(state, entries)
    &&& keccak(trie_rlp(entries, MAX_NIBBLES as nat)) == empty_root() ==> no_keys(entries)
}

/// Whatever a witness holds, indexing it answers no hash of the trie with another node. The one
/// thing asked of the hash is that it tells the trie.
pub proof fn law_indexing_verifies(state: Seq<Vec<u8>>, entries: Map<Seq<u8>, Seq<u8>>)
    requires
        recordable(entries, MAX_NIBBLES as nat),
        told_by_hash(state, entries),
    ensures
        commits(
            indexed(state, state.len()),
            keccak(trie_rlp(entries, MAX_NIBBLES as nat)),
            entries,
        ),
{
    let nodes = indexed(state, state.len());
    law_indexed_by_hash(state, state.len());
    lemma_below_nothing(entries);
    assert(node_at_path(entries, 64, Seq::empty()) == trie_rlp(entries, 64));
    assert forall|path: Seq<u8>|
        path.len() <= 64 && nodes.contains_key(
            keccak(#[trigger] node_at_path(entries, 64, path)),
        ) implies nodes[keccak(node_at_path(entries, 64, path))] == node_at_path(
        entries,
        64,
        path,
    ) by {
        let digest = keccak(node_at_path(entries, 64, path));
        let i = choose|i: int|
            0 <= i < state.len() && (#[trigger] state[i])@ == nodes[digest];
        assert(state[i]@ == nodes[digest]);
    }
    assert(faithful(nodes, entries, 64));
}

/// Whatever a witness holds, it can leave a read or an update without an answer but never with a
/// wrong one, as long as the hash tells the trie.
pub proof fn law_bad_witness_never_misleads(
    state: Seq<Vec<u8>>,
    entries: Map<Seq<u8>, Seq<u8>>,
    changes: Map<Seq<u8>, Option<Seq<u8>>>,
    key: [u8; 32],
)
    requires
        recordable(entries, MAX_NIBBLES as nat),
        applicable(changes, MAX_NIBBLES as nat),
        told_by_hash(state, entries),
    ensures
        ({
            let nodes = indexed(state, state.len());
            let root = keccak(trie_rlp(entries, MAX_NIBBLES as nat));
            &&& trie_read(nodes, root, unpacked(key@)) matches Ok(value) ==> value == held(
                entries,
                unpacked(key@),
            )
            &&& updated_root(nodes, root, changes) matches Ok(after) ==> after == keccak(
                trie_rlp(overlay(entries, changes), MAX_NIBBLES as nat),
            )
        }),
{
    let nodes = indexed(state, state.len());
    let root = keccak(trie_rlp(entries, 64));
    law_indexing_verifies(state, entries);
    law_read(nodes, root, entries, key);
    law_update_root(nodes, root, entries, changes);
}

} // verus!
