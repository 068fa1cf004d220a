//! Recomputing a trie over a change set, which descends once over the whole of it so every node it
//! touches is decoded and re-encoded exactly once.

use vstd::prelude::*;
use vstd::slice::slice_subrange;

use crate::changes::{
    agree, change_map, changes_by_nibble, has_deletion, has_write, in_order, key_from,
    lemma_all_start_with, lemma_any_removal, lemma_change_at, lemma_change_count, lemma_change_of,
    lemma_unpacked, names_values, Change,
};
use crate::descent::{
    absent_items, agreed_len, branch_updated, child_at, children_run, children_updated,
    closed_branch, collapse_reaches_built, extension_updated, leaf_updated, lemma_branch_many,
    lemma_branch_one, lemma_children_run, lemma_children_updated, lemma_extension_any,
    lemma_extension_follows, lemma_extension_parts, lemma_run_fails, lemma_run_skips,
    lemma_split_extension, lemma_updated, node_under_of, residual_child, residual_item,
    split_extension, updated,
};
use crate::encode::{
    branch_rlp, encode_branch, encode_extension, encode_extension_encoded, encode_leaf,
    encode_leaf_from_key, extension_rlp, leaf_rlp, lemma_branch_len, lemma_encoded_extension_len,
    lemma_extension_len, lemma_leaf_len, narrow_items, reference, reference_of, splice_branch,
    Carried, MAX_EXTENSION_RLP, MAX_GAPPED_BRANCH_RLP, MAX_LEAF_RLP,
};
use crate::error::PathError;
use crate::floor::{
    branch_floor, floor_of, lemma_branch_floor, lemma_floor_fails, lemma_floor_of,
    lemma_floor_skips, lemma_run_floor, lemma_split_floor, reached, residual_taken, run_floor,
    run_taken, set_aside, split_floor,
};
use crate::nibbles::{
    common_prefix_len, hex_prefix_decode, is_path, key_nibbles, lemma_path_of_is_path,
    lemma_shared_len, merge_paths, nibble_at, path_from, path_of, shared_len, unpacked, MAX_NIBBLES,
};
use crate::node::{
    branch_children, decode_node, empty_node, empty_rlp, filled_children, filled_of, is_empty_node,
    items_view, lemma_branch_items, lemma_item_start, lemma_node_of, node_of, Branch, Filled, Node,
    NodeView, MAX_BRANCH_RLP, MAX_ITEM, MAX_LEAF_VALUE,
};
use crate::path::PathState;
use crate::room::{
    branch_leaves_room, extension_leaves_room, leaves_room, lemma_child_leaves_room,
    lemma_leaves_room, lemma_split_fits,
};
use crate::stack::{
    branch_descent_bytes, descent_bytes, held, keeps_length, lemma_descent_bytes, lemma_room_saves,
    spent, took, write_bytes, DynStack, LEAF_TAIL,
};
use crate::steps::{
    delimited, entries_of, held_view, lemma_agreed_by_all, lemma_any_write, lemma_below_all,
    lemma_branch_budget, lemma_branch_under_filled, lemma_built_items, lemma_built_split,
    lemma_emptied, lemma_existing_below, lemma_follows, lemma_last_nibble_run, lemma_leaf_filled,
    lemma_nibble_run, lemma_one, lemma_one_below, lemma_one_parts, lemma_one_written,
    lemma_only_removals, lemma_reference_filled, lemma_run_items, lemma_single_write,
    lemma_still_written, lemma_tail_floor, lemma_two_entries, lemma_untouched, run_items,
    writes_below,
};
use crate::trie::{
    all_start_with, below, branch_under_rlp, entry, lemma_below_entry, lemma_below_overlay,
    lemma_split_not_single, lemma_trie_empty, lemma_trie_items, lemma_trie_leaf, lemma_trie_split,
    no_keys, overlay, trie_items, trie_rlp, written,
};
use crate::values::ChangedValues;

verus! {

/// What two keys and a path in the subtree share.
pub open spec fn shared_by_all(low: Seq<u8>, high: Seq<u8>, existing_path: Option<Seq<u8>>) -> nat {
    let shared = shared_len(low, high);
    match existing_path {
        Some(path) => {
            let (l, h) = (shared_len(low, path), shared_len(high, path));
            if shared <= l && shared <= h {
                shared
            } else if l <= h {
                l
            } else {
                h
            }
        },
        None => shared,
    }
}

/// What two keys and a path share is as far as all of them are alike, and no further.
pub proof fn law_shared_by_all(low: Seq<u8>, high: Seq<u8>, path: Seq<u8>)
    ensures
        ({
            let shared = shared_by_all(low, high, Some(path)) as int;
            &&& shared <= low.len() && shared <= high.len() && shared <= path.len()
            &&& forall|i: int|
                0 <= i < shared ==> #[trigger] low[i] == path[i] && high[i] == path[i]
            &&& shared < low.len() && shared < high.len() && shared < path.len() ==> !(low[shared]
                == path[shared] && high[shared] == path[shared])
        }),
        ({
            let shared = shared_by_all(low, high, None) as int;
            &&& shared <= low.len() && shared <= high.len()
            &&& forall|i: int| 0 <= i < shared ==> #[trigger] low[i] == high[i]
            &&& shared < low.len() && shared < high.len() ==> low[shared] != high[shared]
        }),
{
    lemma_shared_len(low, high);
    lemma_shared_len(low, path);
    lemma_shared_len(high, path);
    lemma_alike(low, high);
    lemma_alike(low, path);
    lemma_alike(high, path);
}

/// Two sequences are alike at every place of what they share.
proof fn lemma_alike(left: Seq<u8>, right: Seq<u8>)
    ensures
        forall|i: int| 0 <= i < shared_len(left, right) ==> #[trigger] left[i] == right[i],
        forall|i: int| 0 <= i < shared_len(left, right) ==> left[i] == #[trigger] right[i],
{
    lemma_shared_len(left, right);
    let shared = shared_len(left, right) as int;
    assert forall|i: int| 0 <= i < shared implies #[trigger] left[i] == right[i] by {
        assert(left.subrange(0, shared)[i] == right.subrange(0, shared)[i]);
    }
    assert forall|i: int| 0 <= i < shared implies left[i] == #[trigger] right[i] by {
        assert(left[i] == right[i]);
    }
}

/// What a set of sorted keys and a path already in the subtree all share below the depth they are
/// taken from, which is the least any pair of them shares, so the lowest key, the highest and that
/// path settle it. A subtree spans every key below its own path, which is why it can never lengthen
/// what they share.
pub fn prefix_shared_by_all(low: &[u8], high: &[u8], existing_path: Option<&[u8]>) -> (shared: usize)
    ensures
        shared == shared_by_all(
            low@,
            high@,
            match existing_path {
                Some(path) => Some(path@),
                None => None,
            },
        ),
{
    let shared: usize = common_prefix_len(low, high);
    match existing_path {
        Some(path) => {
            let with_low: usize = common_prefix_len(low, path);
            let with_high: usize = common_prefix_len(high, path);
            if shared <= with_low && shared <= with_high {
                shared
            } else if with_low <= with_high {
                with_low
            } else {
                with_high
            }
        },
        None => shared,
    }
}

/// The node `node_rlp` becomes with `path` nibbles above it, which a short node absorbs into its
/// own path for the trie to stay canonical and a branch takes an extension for.
///
/// `item` is what a parent already references the subtree through, which only the branch case needs
/// and which sparing lets the other two avoid hashing a node they re-encode anyway.
pub fn node_under<'s>(
    path: &[u8],
    node_rlp: &'s [u8],
    item: Option<&'s [u8]>,
    stack: &mut DynStack<'s>,
) -> (under: Result<&'s [u8], PathError>)
    requires
        is_path(path@),
        path@.len() <= MAX_NIBBLES,
        item matches Some(bytes) ==> bytes@.len() <= MAX_ITEM,
    ensures
        match node_under_of(
            path@,
            node_rlp@,
            match item {
                Some(bytes) => bytes@,
                None => reference_of(node_rlp@),
            },
        ) {
            Ok(bytes) => under is Ok && under->Ok_0@ == bytes,
            Err(error) => under == Err::<&'s [u8], PathError>(error),
        },
        spent(*old(stack), *final(stack), if path@.len() == 0 { 0 } else { MAX_LEAF_RLP as int }),
        *final(final(stack).peak) == *final(old(stack).peak),
        keeps_length(
            old(stack).free@,
            final(old(stack).free)@,
            final(stack).free@,
            final(final(stack).free)@,
        ),
{
    proof {
        reveal(node_under_of);
        lemma_node_of(node_rlp@);
    }
    if path.len() == 0 {
        return Ok(node_rlp);
    }
    let (child_path, second, is_leaf) = match decode_node(node_rlp) {
        Err(error) => return Err(error),
        Ok(Node::Leaf { path, value }) => (path, value, true),
        Ok(Node::Extension { path, child }) => (path, child, false),
        Ok(Node::Branch(_)) => {
            let item = match item {
                Some(item) => item,
                None => reference(node_rlp, stack),
            };
            proof {
                lemma_extension_len(path@, item@);
            }
            return Ok(encode_extension(path, item, stack));
        },
    };
    let mut buf: [u8; 64] = [0; 64];
    let mut merged: [u8; 64] = [0; 64];
    let child_path = match hex_prefix_decode(child_path, &mut buf) {
        Ok(child_path) => child_path,
        Err(error) => return Err(error),
    };
    let merged = match merge_paths(path, child_path, &mut merged) {
        Ok(merged) => merged,
        Err(error) => return Err(error),
    };
    proof {
        match node_of(node_rlp@)->Ok_0 {
            NodeView::Leaf { path: encoded, .. } => {
                lemma_path_of_is_path(encoded);
            },
            NodeView::Extension { path: encoded, .. } => {
                lemma_path_of_is_path(encoded);
            },
            _ => {},
        }
        assert(is_path(merged@));
    }
    if is_leaf {
        proof {
            lemma_leaf_len(merged@, second@);
        }
        Ok(encode_leaf(merged, second, stack))
    } else {
        proof {
            lemma_extension_len(merged@, second@);
        }
        Ok(encode_extension(merged, second, stack))
    }
}

/// The node the branch `items` encode to becomes with `path` nibbles above it, which is that branch
/// under an extension unless `path`, the nibbles those entries share, is empty.
pub fn branch_under<'s>(path: &[u8], items: &[&[u8]; 16], stack: &mut DynStack<'s>) -> (under: &'s [u8])
    requires
        is_path(path@),
        path@.len() <= MAX_NIBBLES,
        narrow_items(items_view(*items)),
    ensures
        under@ == branch_under_rlp(path@, items_view(*items)),
        spent(*old(stack), *final(stack), MAX_BRANCH_RLP + MAX_ITEM + MAX_EXTENSION_RLP),
        *final(final(stack).peak) == *final(old(stack).peak),
        keeps_length(
            old(stack).free@,
            final(old(stack).free)@,
            final(stack).free@,
            final(final(stack).free)@,
        ),
{
    proof {
        lemma_branch_len(items_view(*items));
    }
    let branch = encode_branch(items, stack);
    if path.len() == 0 {
        return branch;
    }
    let item = reference(branch, stack);
    proof {
        lemma_extension_len(path@, item@);
    }
    encode_extension(path, item, stack)
}

/// The items of the branch an extension splits into `shared` nibbles along its path, which what is
/// left of it below that nibble is the one of, and that child where anything of its path is left.
///
/// The branch arm runs on these rather than on a branch anyone encodes, so what is left of the
/// extension is a child the frame holds rather than one any later trie could find.
fn split_items<'s>(path: &[u8], shared: usize, child: &'s [u8], stack: &mut DynStack<'s>) -> (split: (
    [&'s [u8]; 16],
    Prebuilt<'s>,
))
    requires
        is_path(path@),
        shared < path@.len() <= MAX_NIBBLES,
        child@.len() <= MAX_ITEM,
    ensures
        items_view(split.0) == absent_items().update(
            path@[shared as int] as int,
            residual_item(path@, shared as nat, child@),
        ),
        narrow_items(items_view(split.0)),
        prebuilt_view(split.1) == residual_child(path@, shared as nat, child@),
        spent(
            *old(stack),
            *final(stack),
            if shared + 1 < path@.len() {
                extension_rlp(path@.skip(shared + 1), child@).len() as int + 33
            } else {
                0
            },
        ),
        residual_taken(path@, shared as nat, child@) <= old(stack).free@.len() ==> old(
            stack,
        ).free@.len() - final(stack).free@.len() == residual_taken(path@, shared as nat, child@),
        residual_taken(path@, shared as nat, child@) <= old(stack).free@.len() ==> reached(
            *old(stack),
            *final(stack),
            residual_taken(path@, shared as nat, child@),
        ),
        *final(final(stack).peak) == *final(old(stack).peak),
        keeps_length(
            old(stack).free@,
            final(old(stack).free)@,
            final(stack).free@,
            final(final(stack).free)@,
        ),
{
    let mut items: [&'s [u8]; 16] = [empty_node(); 16];
    assert(items_view(items) =~= absent_items());
    let nibble: u8 = path[shared];
    let mut prebuilt: Prebuilt<'s> = None;
    if shared + 1 < path.len() {
        let tail = slice_subrange(path, shared + 1, path.len());
        assert(tail@ =~= path@.skip(shared + 1));
        assert(is_path(tail@));
        let extension = encode_extension(tail, child, stack);
        prebuilt = Some((nibble, extension));
        items[nibble as usize] = reference(extension, stack);
    } else {
        items[nibble as usize] = child;
    }
    assert(items_view(items) =~= absent_items().update(
        nibble as int,
        residual_item(path@, shared as nat, child@),
    ));
    assert(narrow_items(items_view(items)));
    (items, prebuilt)
}

/// Whether every value leaves room for the node it is copied into.
pub open spec fn values_fit(rlps: Seq<Seq<u8>>) -> bool {
    forall|i: int| 0 <= i < rlps.len() ==> (#[trigger] rlps[i]).len() <= usize::MAX - 100
}

/// Whether every value is no wider than an account, which is what the scratch is sized against.
pub open spec fn values_narrow(rlps: Seq<Seq<u8>>) -> bool {
    forall|i: int| 0 <= i < rlps.len() ==> (#[trigger] rlps[i]).len() <= MAX_LEAF_VALUE
}

/// A child whose encoding this frame holds rather than the witness, named by the nibble it sits
/// under, since looking a node the descent built up by hash is the one lookup the witness cannot
/// answer.
///
/// A collapse happens only when a single child is left, so at most one child a frame builds can
/// survive it and every other child a collapse could reach is still an item the witness supplied.
pub type Prebuilt<'s> = Option<(u8, &'s [u8])>;

/// What a prebuilt child holds.
pub open spec fn prebuilt_view(prebuilt: Prebuilt) -> Option<(u8, Seq<u8>)> {
    match prebuilt {
        Some((nibble, node_rlp)) => Some((nibble, node_rlp@)),
        None => None,
    }
}

/// Whether a node came out as the bytes, or the error, it was to come out as.
pub open spec fn comes_to(node_rlp: Result<&[u8], PathError>, expected: Result<Seq<u8>, PathError>) -> bool {
    match (node_rlp, expected) {
        (Ok(bytes), Ok(expected)) => bytes@ == expected,
        (Err(error), Err(expected)) => error == expected,
        _ => false,
    }
}

/// A node that came out as it was to is those very bytes, or failed with that very error.
pub proof fn law_comes_to(node_rlp: Result<&[u8], PathError>, expected: Result<Seq<u8>, PathError>)
    ensures
        comes_to(node_rlp, expected) <==> match node_rlp {
            Ok(bytes) => expected == Ok::<Seq<u8>, PathError>(bytes@),
            Err(error) => expected == Err::<Seq<u8>, PathError>(error),
        },
{
}

/// What every frame of one descent reads, which is fixed for the whole change set and so stays
/// clear of the arguments the recursion carries.
pub struct Descent<'a, V: ChangedValues + ?Sized> {
    /// The trie the descent walks.
    pub state: &'a PathState,
    /// The values its change set draws on.
    pub values: &'a V,
}

impl<'a, V: ChangedValues + ?Sized> Descent<'a, V> {
    /// The RLP of every value.
    pub open spec fn rlps(&self) -> Seq<Seq<u8>> {
        self.values.rlps()
    }

    /// What the changes do to the keys they name, as far as those are left from `depth`.
    pub open spec fn applied(&self, changes: Seq<Change>, depth: nat) -> Map<
        Seq<u8>,
        Option<Seq<u8>>,
    > {
        change_map(changes, self.rlps(), depth)
    }

    /// Bytes an update of a node at `depth` holds at once at most.
    pub open spec fn node_bytes(&self, node_rlp: Seq<u8>, depth: nat) -> int {
        descent_bytes(
            depth as int,
            leaves_room(self.state.witness(), node_rlp, (MAX_NIBBLES - depth) as nat),
        )
    }

    /// Bytes an update of an extension at `depth` holds at once at most.
    pub open spec fn extension_bytes(&self, path: Seq<u8>, child: Seq<u8>, depth: nat) -> int {
        descent_bytes(
            depth as int,
            extension_leaves_room(
                self.state.witness(),
                path,
                child,
                (MAX_NIBBLES - depth) as nat,
            ),
        )
    }

    /// Bytes a branch frame at `depth` holds at once at most.
    pub open spec fn branch_bytes(
        &self,
        items: Seq<Seq<u8>>,
        prebuilt: Option<(u8, Seq<u8>)>,
        depth: nat,
    ) -> int {
        branch_descent_bytes(
            depth as int,
            branch_leaves_room(
                self.state.witness(),
                items,
                (MAX_NIBBLES - depth) as nat,
                prebuilt,
            ),
        )
    }

    /// Whether the changes are ones a frame at `depth` can take: ordered by key, alike up to that
    /// depth and drawing on the values there are.
    pub open spec fn takes(&self, changes: Seq<Change>, depth: nat) -> bool {
        &&& depth <= MAX_NIBBLES
        &&& in_order(changes)
        &&& agree(changes, depth)
        &&& names_values(changes, self.rlps().len())
        &&& values_fit(self.rlps())
    }

    /// The leaf `value` writes at the nibbles `key` carries from `depth`, or the empty node when it
    /// removes one instead.
    pub fn leaf_or_empty<'s>(
        &self,
        key: &[u8; 32],
        depth: usize,
        value: Option<u32>,
        stack: &mut DynStack<'s>,
    ) -> (node_rlp: &'s [u8])
        requires
            depth <= MAX_NIBBLES,
            values_fit(self.rlps()),
            value matches Some(index) ==> index < self.rlps().len(),
        ensures
            node_rlp@ == match value {
                Some(index) => leaf_rlp(unpacked(key@).skip(depth as int), self.rlps()[index as int]),
                None => empty_rlp(),
            },
            values_narrow(self.rlps()) ==> spent(
                *old(stack),
                *final(stack),
                descent_bytes(depth as int, true),
            ),
            *final(final(stack).peak) == *final(old(stack).peak),
            keeps_length(
                old(stack).free@,
                final(old(stack).free)@,
                final(stack).free@,
                final(final(stack).free)@,
            ),
    {
        proof {
            if depth < 64 {
                lemma_descent_bytes(depth as int, 64, true);
            }
            lemma_unpacked(key@);
        }
        let index: u32 = match value {
            Some(index) => index,
            None => return empty_node(),
        };
        let value = self.values.encode(index, stack);
        proof {
            assert(value@ == self.rlps()[index as int]);
            if values_narrow(self.rlps()) {
                lemma_leaf_len(unpacked(key@).skip(depth as int), value@);
            }
        }
        encode_leaf_from_key(key, depth, value, stack)
    }

    /// The branch that parts the subtree `existing_item` references from the key being written,
    /// each under the nibble its own path takes at the split, with the nibbles they share above
    /// it.
    ///
    /// Both still have a nibble there, since a key parts from a path in the trie before either
    /// ends.
    pub fn parting_branch<'s>(
        &self,
        existing_path: &[u8],
        existing_item: &'s [u8],
        remaining: &[u8],
        shared: usize,
        value: u32,
        stack: &mut DynStack<'s>,
    ) -> (node_rlp: &'s [u8])
        requires
            is_path(existing_path@),
            is_path(remaining@),
            shared < existing_path@.len(),
            shared < remaining@.len() <= MAX_NIBBLES,
            existing_item@.len() <= MAX_ITEM,
            values_fit(self.rlps()),
            value < self.rlps().len(),
        ensures
            node_rlp@ == branch_under_rlp(
                remaining@.subrange(0, shared as int),
                absent_items().update(
                    existing_path@[shared as int] as int,
                    existing_item@,
                ).update(
                    remaining@[shared as int] as int,
                    reference_of(
                        leaf_rlp(remaining@.skip(shared + 1), self.rlps()[value as int]),
                    ),
                ),
            ),
            values_narrow(self.rlps()) ==> spent(
                *old(stack),
                *final(stack),
                MAX_LEAF_VALUE + MAX_LEAF_RLP + MAX_ITEM + MAX_BRANCH_RLP + MAX_ITEM
                    + MAX_EXTENSION_RLP,
            ),
            *final(final(stack).peak) == *final(old(stack).peak),
            keeps_length(
                old(stack).free@,
                final(old(stack).free)@,
                final(stack).free@,
                final(final(stack).free)@,
            ),
    {
        let mut items: [&'s [u8]; 16] = [empty_node(); 16];
        assert(items_view(items) =~= absent_items());
        items[existing_path[shared] as usize] = existing_item;
        assert(items_view(items) =~= absent_items().update(
            existing_path@[shared as int] as int,
            existing_item@,
        ));
        let value_rlp = self.values.encode(value, stack);
        let tail = slice_subrange(remaining, shared + 1, remaining.len());
        proof {
            assert(tail@ =~= remaining@.skip(shared + 1));
            assert(value_rlp@ == self.rlps()[value as int]);
            assert(is_path(tail@));
            if values_narrow(self.rlps()) {
                lemma_leaf_len(tail@, value_rlp@);
            }
        }
        let leaf = encode_leaf(tail, value_rlp, stack);
        let ghost before = items_view(items);
        items[remaining[shared] as usize] = reference(leaf, stack);
        let front = slice_subrange(remaining, 0, shared);
        proof {
            assert(items_view(items) =~= before.update(
                remaining@[shared as int] as int,
                reference_of(leaf@),
            ));
            assert(is_path(front@));
        }
        branch_under(front, &items, stack)
    }

    /// The node a branch closes as once a deletion has been applied to its children, which is that
    /// branch itself unless the deletion left it with one child or none at all.
    ///
    /// One child left collapses into the short node the canonical trie asks for, which carries that
    /// child's nibble at the front of its path.
    pub fn close_branch<'s>(
        &self,
        children: &[&'s [u8]; 16],
        prebuilt: Prebuilt<'s>,
        stack: &mut DynStack<'s>,
    ) -> (node_rlp: Result<&'s [u8], PathError>)
        requires
            narrow_items(items_view(*children)),
        ensures
            comes_to(
                node_rlp,
                closed_branch(
                    self.state.witness(),
                    items_view(*children),
                    prebuilt_view(prebuilt),
                ),
            ),
            spent(*old(stack), *final(stack), MAX_BRANCH_RLP as int),
            (exists|i: int| 0 <= i < 16 && #[trigger] items_view(*children)[i] == empty_rlp())
                ==> spent(*old(stack), *final(stack), MAX_GAPPED_BRANCH_RLP as int),
            filled_of(items_view(*children)) is Many ==> took(
                *old(stack),
                *final(stack),
                branch_rlp(items_view(*children)).len(),
            ),
            *final(final(stack).peak) == *final(old(stack).peak),
            keeps_length(
                old(stack).free@,
                final(old(stack).free)@,
                final(stack).free@,
                final(final(stack).free)@,
            ),
    {
        let ghost items = items_view(*children);
        proof {
            reveal(closed_branch);
        }
        match filled_children(children) {
            Filled::Empty => Ok(empty_node()),
            Filled::One(nibble) => {
                let item = children[nibble as usize];
                assert(item@ == items[nibble as int]);
                let child_rlp = match prebuilt {
                    Some((built, node_rlp)) if built == nibble => node_rlp,
                    _ => match self.state.resolve_child(item) {
                        Ok(child_rlp) => child_rlp,
                        Err(error) => return Err(error),
                    },
                };
                let path: [u8; 1] = [nibble];
                assert(path@ =~= seq![nibble]);
                node_under(path.as_slice(), child_rlp, Some(item), stack)
            },
            Filled::Many => {
                proof {
                    lemma_branch_len(items);
                }
                Ok(encode_branch(children, stack))
            },
        }
    }

    /// The subtree a change set alone shapes, built top down.
    ///
    /// Applying the changes one at a time would re-encode the node under construction once per
    /// change and reach back into what it had just built by hash, holding every intermediate alive
    /// until the last change lands. Taking the whole change set at once instead makes what this
    /// holds a function of the depth of the trie rather than of the size of the change set.
    ///
    /// Removals are dropped rather than applied, since a subtree with no node in it holds nothing
    /// to remove, and they are the reason a subtree is delimited by the writes it carries rather
    /// than by every key in it.
    pub fn build_subtree<'s>(
        &self,
        changes: &[Change],
        depth: usize,
        existing: Option<(&[u8], &'s [u8])>,
        stack: &mut DynStack<'s>,
    ) -> (node_rlp: &'s [u8])
        requires
            self.takes(changes@, depth as nat),
            existing matches Some((path, value)) ==> {
                &&& is_path(path@)
                &&& path@.len() == MAX_NIBBLES - depth
                &&& value@.len() <= MAX_LEAF_VALUE
                &&& !self.applied(changes@, depth as nat).contains_key(path@)
            },
        ensures
            node_rlp@ == trie_rlp(
                overlay(entries_of(existing), self.applied(changes@, depth as nat)),
                (MAX_NIBBLES - depth) as nat,
            ),
            node_rlp@ == empty_rlp() <==> no_keys(
                overlay(entries_of(existing), self.applied(changes@, depth as nat)),
            ),
            values_narrow(self.rlps()) ==> spent(
                *old(stack),
                *final(stack),
                descent_bytes(depth as int, true),
            ),
            *final(final(stack).peak) == *final(old(stack).peak),
            keeps_length(
                old(stack).free@,
                final(old(stack).free)@,
                final(stack).free@,
                final(final(stack).free)@,
            ),
        decreases MAX_NIBBLES - depth, 1nat,
    {
        let ghost rlps = self.rlps();
        let ghost applied = self.applied(changes@, depth as nat);
        let ghost held_entries = entries_of(existing);
        let ghost entries = overlay(held_entries, applied);
        let ghost len = (64 - depth) as nat;
        proof {
            if depth < 64 {
                lemma_descent_bytes(depth as int, 64, true);
            }
        }
        let mut first: usize = 0;
        while first < changes.len() && changes[first].1.is_none()
            invariant
                first <= changes@.len(),
                forall|i: int| 0 <= i < first ==> (#[trigger] changes@[i]).1 is None,
            decreases changes.len() - first,
        {
            first = first + 1;
        }
        if first == changes.len() {
            // Nothing is written here, so only what the subtree already held can remain.
            proof {
                lemma_only_removals(changes@, rlps, depth as nat, held_entries);
            }
            return match existing {
                Some((path, value)) => {
                    proof {
                        lemma_trie_leaf(entries, len, path@);
                        lemma_leaf_len(path@, value@);
                        lemma_leaf_filled(path@, value@);
                        assert(entries.contains_key(path@));
                    }
                    encode_leaf(path, value, stack)
                },
                None => {
                    proof {
                        lemma_trie_empty(entries, len);
                    }
                    empty_node()
                },
            };
        }
        let mut last: usize = changes.len() - 1;
        while last > first && changes[last].1.is_none()
            invariant
                first <= last < changes@.len(),
                forall|i: int| last < i < changes@.len() ==> (#[trigger] changes@[i]).1 is None,
            decreases last,
        {
            last = last - 1;
        }
        let first_nibbles: [u8; 64] = key_nibbles(&changes[first].0);
        let low = slice_subrange(first_nibbles.as_slice(), depth, MAX_NIBBLES);
        proof {
            lemma_unpacked(changes@[first as int].0@);
            assert(low@ =~= key_from(changes@[first as int], depth as nat));
        }
        let first_value: u32 = match changes[first].1 {
            Some(index) => index,
            None => 0,
        };
        if first == last && existing.is_none() {
            let value = self.values.encode(first_value, stack);
            proof {
                lemma_single_write(changes@, rlps, depth as nat, first as int);
                lemma_trie_leaf(entries, len, low@);
                lemma_leaf_filled(low@, value@);
                assert(entries.contains_key(low@));
                if values_narrow(rlps) {
                    assert(rlps[first_value as int].len() <= MAX_LEAF_VALUE);
                    lemma_leaf_len(low@, value@);
                }
            }
            return encode_leaf(low, value, stack);
        }
        let last_nibbles: [u8; 64] = key_nibbles(&changes[last].0);
        let high = slice_subrange(last_nibbles.as_slice(), depth, MAX_NIBBLES);
        assert(high@ =~= key_from(changes@[last as int], depth as nat));
        let existing_path: Option<&[u8]> = match existing {
            Some((path, _)) => Some(path),
            None => None,
        };
        let shared: usize = prefix_shared_by_all(low, high, existing_path);
        let ghost path = low@.subrange(0, shared as int);
        proof {
            assert(delimited(
                changes@,
                rlps,
                depth as nat,
                held_view(existing),
                first as int,
                last as int,
            ));
            let _ = lemma_built_split(
                changes@,
                rlps,
                depth as nat,
                held_view(existing),
                first as int,
                last as int,
            );
        }
        let split: usize = depth + shared;
        let middle = slice_subrange(changes, first, last + 1);
        // An entry that survived the writes parts from them before its path ends, and that path
        // ends where a key does, so both it and the writes still have a nibble at the split.
        let existing_from: Option<(&[u8], &'s [u8])> = match existing {
            Some((held_path, value)) => Some(
                (slice_subrange(held_path, shared, held_path.len()), value),
            ),
            None => None,
        };
        let ghost below_entries = below(entries, path);
        proof {
            lemma_descent_bytes(depth as int, split + 1, true);
            lemma_trie_split(entries, len, path);
            lemma_split_not_single(entries, path);
            match existing {
                Some((held_path, value)) => {
                    lemma_below_entry(held_path@, value@, path);
                    assert(existing_from->Some_0.0@ =~= held_path@.skip(shared as int));
                    assert(is_path(existing_from->Some_0.0@));
                },
                None => {
                    assert(below(held_entries, path) =~= Map::empty());
                },
            }
            assert(below_entries == overlay(
                entries_of(existing_from),
                self.applied(middle@, split as nat),
            ));
        }
        let items = self.build_children(middle, split, existing_from, stack);
        proof {
            lemma_branch_under_filled(path, items_view(items));
        }
        // The lowest and the highest entry part at the split, so the branch always keeps two
        // children and never needs collapsing.
        let front = slice_subrange(low, 0, shared);
        assert(is_path(front@));
        branch_under(front, &items, stack)
    }

    /// Applies every change in `changes`, all of whose keys reach this node, and returns the RLP of
    /// the node that replaces it.
    ///
    /// Ordered changes leave each branch's children a contiguous sub-slice of the change set, so
    /// one descent covers the whole of it and no node is decoded or re-encoded twice.
    pub fn update<'s>(
        &self,
        node_rlp: &'s [u8],
        changes: &[Change],
        depth: usize,
        stack: &mut DynStack<'s>,
    ) -> (updated_rlp: Result<&'s [u8], PathError>)
        requires
            self.takes(changes@, depth as nat),
            changes@.len() > 0,
        ensures
            comes_to(
                updated_rlp,
                updated(
                    self.state.witness(),
                    node_rlp@,
                    self.applied(changes@, depth as nat),
                    (MAX_NIBBLES - depth) as nat,
                ),
            ),
            values_narrow(self.rlps()) ==> spent(
                *old(stack),
                *final(stack),
                self.node_bytes(node_rlp@, depth as nat),
            ),
            values_narrow(self.rlps()) && old(stack).free@.len() >= self.node_bytes(
                node_rlp@,
                depth as nat,
            ) ==> reached(
                *old(stack),
                *final(stack),
                floor_of(
                    self.state.witness(),
                    node_rlp@,
                    self.applied(changes@, depth as nat),
                    (MAX_NIBBLES - depth) as nat,
                ),
            ),
            *final(final(stack).peak) == *final(old(stack).peak),
            keeps_length(
                old(stack).free@,
                final(old(stack).free)@,
                final(stack).free@,
                final(final(stack).free)@,
            ),
        decreases MAX_NIBBLES - depth, 4nat,
    {
        proof {
            lemma_floor_of(
                self.state.witness(),
                node_rlp@,
                self.applied(changes@, depth as nat),
                (64 - depth) as nat,
            );
            lemma_leaves_room(self.state.witness(), node_rlp@, (64 - depth) as nat);
            lemma_tail_floor(depth as int);
        }
        if changes.len() == 1 {
            assert(changes@ =~= seq![(changes@[0].0, changes@[0].1)]);
            proof {
                lemma_change_count(changes@, self.rlps(), depth as nat);
            }
            return self.update_one(node_rlp, &changes[0].0, depth, changes[0].1, stack);
        }
        proof {
            lemma_change_count(changes@, self.rlps(), depth as nat);
            lemma_node_of(node_rlp@);
            lemma_updated(
                self.state.witness(),
                node_rlp@,
                self.applied(changes@, depth as nat),
                (64 - depth) as nat,
            );
        }

        // An empty subtree is shaped by the change set alone, so it is built in one top-down pass
        // rather than by inserting one key at a time.
        if is_empty_node(node_rlp) {
            return Ok(self.build_subtree(changes, depth, None, stack));
        }

        match decode_node(node_rlp) {
            Err(error) => Err(error),
            Ok(Node::Leaf { path, value }) => self.update_leaf(path, value, changes, depth, stack),
            Ok(Node::Extension { path, child }) => self.update_extension(
                path,
                child,
                changes,
                depth,
                stack,
            ),
            Ok(Node::Branch(branch)) => {
                proof {
                    lemma_branch_many(
                        self.state.witness(),
                        branch.payload@,
                        self.applied(changes@, depth as nat),
                        (64 - depth) as nat,
                    );
                }
                let children = match branch_children(branch.payload) {
                    Ok(children) => children,
                    Err(error) => return Err(error),
                };
                proof {
                    lemma_branch_items(branch.payload@);
                    lemma_descent_bytes(
                        depth as int,
                        64,
                        leaves_room(self.state.witness(), node_rlp@, (64 - depth) as nat),
                    );
                }
                self.update_branch(children, changes, depth, None, stack)
            },
        }
    }

    /// The RLP of the node that replaces this extension, which is a branch when the change set
    /// leaves its path part way along.
    pub fn update_extension<'s>(
        &self,
        encoded: &[u8],
        child: &'s [u8],
        changes: &[Change],
        depth: usize,
        stack: &mut DynStack<'s>,
    ) -> (node_rlp: Result<&'s [u8], PathError>)
        requires
            self.takes(changes@, depth as nat),
            changes@.len() > 1,
            encoded@.len() > 0,
            path_of(encoded@).len() > 0,
            child@.len() <= MAX_ITEM,
        ensures
            forall|extension_rlp: Seq<u8>|
                comes_to(
                    node_rlp,
                    #[trigger] extension_updated(
                        self.state.witness(),
                        extension_rlp,
                        encoded@,
                        child@,
                        self.applied(changes@, depth as nat),
                        (MAX_NIBBLES - depth) as nat,
                    ),
                ),
            values_narrow(self.rlps()) ==> spent(
                *old(stack),
                *final(stack),
                self.extension_bytes(path_of(encoded@), child@, depth as nat),
            ),
            values_narrow(self.rlps()) && old(stack).free@.len() >= self.extension_bytes(
                path_of(encoded@),
                child@,
                depth as nat,
            ) ==> reached(
                *old(stack),
                *final(stack),
                split_floor(
                    self.state.witness(),
                    path_of(encoded@),
                    child@,
                    self.applied(changes@, depth as nat),
                    (MAX_NIBBLES - depth) as nat,
                ),
            ),
            *final(final(stack).peak) == *final(old(stack).peak),
            keeps_length(
                old(stack).free@,
                final(old(stack).free)@,
                final(stack).free@,
                final(final(stack).free)@,
            ),
        decreases MAX_NIBBLES - depth, 3nat,
    {
        let ghost nodes = self.state.witness();
        let ghost applied = self.applied(changes@, depth as nat);
        let ghost rlps = self.rlps();
        let ghost whole = path_of(encoded@);
        let ghost len = (64 - depth) as nat;
        let count: usize = changes.len();
        proof {
            lemma_change_count(changes@, rlps, depth as nat);
            lemma_all_start_with(changes@, rlps, depth as nat, whole);
            lemma_follows(changes@[0], depth as nat, whole);
            lemma_follows(changes@[count - 1], depth as nat, whole);
            lemma_any_removal(changes@, rlps, depth as nat);
            lemma_path_of_is_path(encoded@);
            lemma_extension_any(nodes, encoded@, child@, applied, len);
            lemma_tail_floor(depth as int);
            lemma_extension_parts(nodes, Seq::empty(), encoded@, child@, applied, len);
            lemma_split_floor(nodes, whole, child@, applied, len);
        }
        // Sorted keys put every change between the first and the last, so a path those two both
        // follow is one they all follow and the whole change set stays inside this extension. Their
        // keys stay packed for it, since an extension the set stays inside keeps its own encoding.
        if let Some(taken) = path_from(&changes[0].0, depth, encoded) {
            if path_from(&changes[count - 1].0, depth, encoded).is_some() {
                return self.update_followed(encoded, taken, child, changes, depth, stack);
            }
        }
        assert(!all_start_with(applied, whole));

        let mut buf: [u8; 64] = [0; 64];
        let path = match hex_prefix_decode(encoded, &mut buf) {
            Ok(path) => path,
            Err(error) => return Err(error),
        };
        // A path that would carry the descent past the last nibble of a key belongs to no node the
        // trie holds, and is what keeps every slice below in range.
        if depth + path.len() > MAX_NIBBLES {
            return Err(PathError::MalformedPath);
        }
        self.update_split(path, child, changes, depth, stack)
    }

    /// The RLP of the node that replaces an extension the change set leaves part way along `path`.
    #[verifier::rlimit(30)]
    #[verifier::spinoff_prover]
    fn update_split<'s>(
        &self,
        path: &[u8],
        child: &'s [u8],
        changes: &[Change],
        depth: usize,
        stack: &mut DynStack<'s>,
    ) -> (node_rlp: Result<&'s [u8], PathError>)
        requires
            self.takes(changes@, depth as nat),
            changes@.len() > 1,
            is_path(path@),
            depth + path@.len() <= MAX_NIBBLES,
            !all_start_with(self.applied(changes@, depth as nat), path@),
            child@.len() <= MAX_ITEM,
        ensures
            comes_to(
                node_rlp,
                split_extension(
                    self.state.witness(),
                    Seq::empty(),
                    path@,
                    child@,
                    self.applied(changes@, depth as nat),
                    (MAX_NIBBLES - depth) as nat,
                ),
            ),
            values_narrow(self.rlps()) ==> spent(
                *old(stack),
                *final(stack),
                self.extension_bytes(path@, child@, depth as nat),
            ),
            values_narrow(self.rlps()) && old(stack).free@.len() >= self.extension_bytes(
                path@,
                child@,
                depth as nat,
            ) ==> reached(
                *old(stack),
                *final(stack),
                split_floor(
                    self.state.witness(),
                    path@,
                    child@,
                    self.applied(changes@, depth as nat),
                    (MAX_NIBBLES - depth) as nat,
                ),
            ),
            *final(final(stack).peak) == *final(old(stack).peak),
            keeps_length(
                old(stack).free@,
                final(old(stack).free)@,
                final(stack).free@,
                final(final(stack).free)@,
            ),
        decreases MAX_NIBBLES - depth, 2nat,
    {
        let ghost nodes = self.state.witness();
        let ghost applied = self.applied(changes@, depth as nat);
        let ghost rlps = self.rlps();
        let ghost whole = path@;
        let ghost len = (64 - depth) as nat;
        let count: usize = changes.len();
        proof {
            lemma_change_count(changes@, rlps, depth as nat);
        }
        // The change set leaves this path part way along, so the extension becomes the branch the
        // trie would hold there and the ordinary descent takes it from that point.
        let low_nibbles: [u8; 64] = key_nibbles(&changes[0].0);
        let high_nibbles: [u8; 64] = key_nibbles(&changes[count - 1].0);
        let low = slice_subrange(low_nibbles.as_slice(), depth, MAX_NIBBLES);
        let high = slice_subrange(high_nibbles.as_slice(), depth, MAX_NIBBLES);
        let shared: usize = prefix_shared_by_all(low, high, Some(path));
        proof {
            assert(low@ =~= key_from(changes@[0], depth as nat));
            assert(high@ =~= key_from(changes@[count - 1], depth as nat));
            lemma_agreed_by_all(changes@, rlps, depth as nat, whole);
            lemma_split_extension(nodes, Seq::empty(), whole, child@, applied, len);
            lemma_split_floor(nodes, whole, child@, applied, len);
            assert(shared == agreed_len(applied, whole));
        }
        let ghost front_path = whole.subrange(0, shared as int);
        let (items, prebuilt) = split_items(path, shared, child, stack);
        proof {
            lemma_below_all(changes@, rlps, depth as nat, front_path);
            lemma_split_fits(nodes, whole, shared as nat, child@, depth as int);
        }
        let updated = match self.update_branch(items, changes, depth + shared, prebuilt, stack) {
            Ok(updated) => updated,
            Err(error) => return Err(error),
        };
        if is_empty_node(updated) {
            return Ok(empty_node());
        }
        let front = slice_subrange(path, 0, shared);
        assert(is_path(front@));
        node_under(front, updated, None, stack)
    }

    /// The RLP of the node that replaces an extension the whole change set stays inside, `taken`
    /// nibbles long.
    fn update_followed<'s>(
        &self,
        encoded: &[u8],
        taken: usize,
        child: &'s [u8],
        changes: &[Change],
        depth: usize,
        stack: &mut DynStack<'s>,
    ) -> (node_rlp: Result<&'s [u8], PathError>)
        requires
            self.takes(changes@, depth as nat),
            changes@.len() > 0,
            encoded@.len() > 0,
            0 < path_of(encoded@).len() <= MAX_NIBBLES - depth,
            taken == path_of(encoded@).len(),
            all_start_with(self.applied(changes@, depth as nat), path_of(encoded@)),
        ensures
            comes_to(
                node_rlp,
                extension_updated(
                    self.state.witness(),
                    Seq::empty(),
                    encoded@,
                    child@,
                    self.applied(changes@, depth as nat),
                    (MAX_NIBBLES - depth) as nat,
                ),
            ),
            values_narrow(self.rlps()) ==> spent(
                *old(stack),
                *final(stack),
                self.extension_bytes(path_of(encoded@), child@, depth as nat),
            ),
            *final(final(stack).peak) == *final(old(stack).peak),
            keeps_length(
                old(stack).free@,
                final(old(stack).free)@,
                final(stack).free@,
                final(final(stack).free)@,
            ),
        decreases MAX_NIBBLES - depth, 1nat,
    {
        proof {
            let applied = self.applied(changes@, depth as nat);
            lemma_below_all(changes@, self.rlps(), depth as nat, path_of(encoded@));
            lemma_extension_follows(
                self.state.witness(),
                Seq::empty(),
                encoded@,
                child@,
                applied,
                (64 - depth) as nat,
            );
            lemma_descent_bytes(
                depth as int,
                depth + taken,
                extension_leaves_room(
                    self.state.witness(),
                    path_of(encoded@),
                    child@,
                    (64 - depth) as nat,
                ),
            );
            lemma_room_saves(depth + taken);
            reveal(extension_leaves_room);
            lemma_any_removal(changes@, self.rlps(), depth as nat);
            lemma_path_of_is_path(encoded@);
        }
        let deletes = has_deletion(changes);
        let resolved = match self.state.resolve_child(child) {
            Ok(resolved) => resolved,
            Err(error) => return Err(error),
        };
        // A deletion can collapse the child into a short node, whose path this extension's
        // must absorb for the trie to stay canonical, so the child builds in this frame's
        // own scratch rather than in a loan it gives back.
        if deletes {
            let updated = match self.update(resolved, changes, depth + taken, stack) {
                Ok(updated) => updated,
                Err(error) => return Err(error),
            };
            if is_empty_node(updated) {
                return Ok(empty_node());
            }
            let mut buf: [u8; 64] = [0; 64];
            let path = match hex_prefix_decode(encoded, &mut buf) {
                Ok(path) => path,
                Err(error) => return Err(error),
            };
            return node_under(path, updated, None, stack);
        }
        let carried = {
            let mut lent = stack.lend();
            let updated = match self.update(resolved, changes, depth + taken, &mut lent) {
                Ok(updated) => updated,
                Err(error) => return Err(error),
            };
            if is_empty_node(updated) {
                return Ok(empty_node());
            }
            Carried::of(updated)
        };
        let item = carried.write(stack);
        proof {
            assert(encoded@.len() <= 33);
            lemma_encoded_extension_len(encoded@, item@);
        }
        return Ok(encode_extension_encoded(encoded, item, stack));
    }

    /// Applies one change to this node, whose subtree its key reaches with the nibbles it carries
    /// from `depth` left.
    ///
    /// The key stays packed, since a node whose path the key follows is one whose path is compared
    /// against the bytes it already sits in and whose encoding the change leaves alone. Only a key
    /// that parts from a node is expanded, and only in the frame that splits it.
    pub fn update_one<'s>(
        &self,
        node_rlp: &'s [u8],
        key: &[u8; 32],
        depth: usize,
        value: Option<u32>,
        stack: &mut DynStack<'s>,
    ) -> (updated_rlp: Result<&'s [u8], PathError>)
        requires
            depth <= MAX_NIBBLES,
            values_fit(self.rlps()),
            value matches Some(index) ==> index < self.rlps().len(),
        ensures
            comes_to(
                updated_rlp,
                updated(
                    self.state.witness(),
                    node_rlp@,
                    self.applied(seq![(*key, value)], depth as nat),
                    (MAX_NIBBLES - depth) as nat,
                ),
            ),
            values_narrow(self.rlps()) ==> spent(
                *old(stack),
                *final(stack),
                descent_bytes(depth as int, true),
            ),
            *final(final(stack).peak) == *final(old(stack).peak),
            keeps_length(
                old(stack).free@,
                final(old(stack).free)@,
                final(stack).free@,
                final(final(stack).free)@,
            ),
        decreases MAX_NIBBLES - depth, 2nat,
    {
        let ghost nodes = self.state.witness();
        let ghost rlps = self.rlps();
        let ghost change: Change = (*key, value);
        let ghost applied = self.applied(seq![change], depth as nat);
        let ghost left = key_from(change, depth as nat);
        let ghost len = (64 - depth) as nat;
        proof {
            lemma_one(change, rlps, depth as nat);
            lemma_unpacked(key@);
            lemma_tail_floor(depth as int);
            lemma_node_of(node_rlp@);
            lemma_updated(nodes, node_rlp@, applied, len);
        }
        if is_empty_node(node_rlp) {
            proof {
                lemma_one_written(change, rlps, depth as nat, Map::empty());
            }
            return Ok(self.leaf_or_empty(key, depth, value, stack));
        }

        match decode_node(node_rlp) {
            Err(error) => Err(error),
            Ok(Node::Leaf { path, value: present }) => self.update_one_leaf(
                node_rlp,
                path,
                present,
                key,
                depth,
                value,
                stack,
            ),
            Ok(Node::Extension { path, child }) => self.update_one_extension(
                node_rlp,
                path,
                child,
                key,
                depth,
                value,
                stack,
            ),
            Ok(Node::Branch(branch)) => self.update_one_branch(branch, key, depth, value, stack),
        }
    }

    /// Applies one change to a leaf.
    fn update_one_leaf<'s>(
        &self,
        node_rlp: &'s [u8],
        encoded: &[u8],
        present: &'s [u8],
        key: &[u8; 32],
        depth: usize,
        value: Option<u32>,
        stack: &mut DynStack<'s>,
    ) -> (updated_rlp: Result<&'s [u8], PathError>)
        requires
            depth <= MAX_NIBBLES,
            values_fit(self.rlps()),
            value matches Some(index) ==> index < self.rlps().len(),
            encoded@.len() > 0,
            present@.len() <= MAX_LEAF_VALUE,
        ensures
            comes_to(
                updated_rlp,
                leaf_updated(
                    node_rlp@,
                    path_of(encoded@),
                    present@,
                    self.applied(seq![(*key, value)], depth as nat),
                    (MAX_NIBBLES - depth) as nat,
                ),
            ),
            values_narrow(self.rlps()) ==> spent(
                *old(stack),
                *final(stack),
                descent_bytes(depth as int, true),
            ),
            *final(final(stack).peak) == *final(old(stack).peak),
            keeps_length(
                old(stack).free@,
                final(old(stack).free)@,
                final(stack).free@,
                final(final(stack).free)@,
            ),
    {
        let ghost rlps = self.rlps();
        let ghost change: Change = (*key, value);
        let ghost applied = self.applied(seq![change], depth as nat);
        let ghost left = key_from(change, depth as nat);
        let ghost len = (64 - depth) as nat;
        proof {
            lemma_one(change, rlps, depth as nat);
            lemma_unpacked(key@);
            lemma_tail_floor(depth as int);
        }
        let ghost whole = path_of(encoded@);
        proof {
            lemma_follows(change, depth as nat, whole);
            lemma_path_of_is_path(encoded@);
        }
        // Every key is a hash of one length, so a leaf ends exactly where a key does. A
        // leaf reaching any other depth belongs to no node the trie holds,
        // and answering a removal with it would leave the branch above
        // fuller than the scratch is sized for.
        if let Some(taken) = path_from(key, depth, encoded) {
            if depth + taken != MAX_NIBBLES {
                return Err(PathError::MalformedPath);
            }
            proof {
                assert(left.subrange(0, left.len() as int) =~= left);
                assert(left == whole);
                lemma_one_written(change, rlps, depth as nat, entry(whole, present@));
            }
            return Ok(self.leaf_or_empty(key, depth, value, stack));
        }
        let mut buf: [u8; 64] = [0; 64];
        let path = match hex_prefix_decode(encoded, &mut buf) {
            Ok(path) => path,
            Err(error) => return Err(error),
        };
        if depth + path.len() != MAX_NIBBLES {
            return Err(PathError::MalformedPath);
        }
        assert(left != whole) by {
            assert(left.subrange(0, left.len() as int) =~= left);
        }

        // The key is not this leaf's, so it was never in this subtree.
        let index: u32 = match value {
            Some(index) => index,
            None => return Ok(node_rlp),
        };

        // Both keys move under a branch at the nibble where they part, which is short of
        // where either path ends because the two are the same length and differ.
        let written = key_nibbles(key);
        let remaining = slice_subrange(written.as_slice(), depth, MAX_NIBBLES);
        assert(remaining@ =~= left);
        let shared: usize = common_prefix_len(path, remaining);
        proof {
            lemma_shared_len(whole, left);
        }
        let tail = slice_subrange(path, shared + 1, path.len());
        proof {
            assert(tail@ =~= whole.skip(shared + 1));
            assert(is_path(tail@));
            lemma_leaf_len(tail@, present@);
            lemma_two_entries(change, rlps, depth as nat, whole, present@);
            lemma_descent_bytes(depth as int, 64, true);
        }
        let leaf = encode_leaf(tail, present, stack);
        let existing_item = reference(leaf, stack);
        Ok(self.parting_branch(path, existing_item, remaining, shared, index, stack))
    }

    /// Applies one change to an extension.
    fn update_one_extension<'s>(
        &self,
        node_rlp: &'s [u8],
        encoded: &[u8],
        child: &'s [u8],
        key: &[u8; 32],
        depth: usize,
        value: Option<u32>,
        stack: &mut DynStack<'s>,
    ) -> (updated_rlp: Result<&'s [u8], PathError>)
        requires
            depth <= MAX_NIBBLES,
            values_fit(self.rlps()),
            value matches Some(index) ==> index < self.rlps().len(),
            encoded@.len() > 0,
            path_of(encoded@).len() > 0,
            child@.len() <= MAX_ITEM,
        ensures
            comes_to(
                updated_rlp,
                extension_updated(
                    self.state.witness(),
                    node_rlp@,
                    encoded@,
                    child@,
                    self.applied(seq![(*key, value)], depth as nat),
                    (MAX_NIBBLES - depth) as nat,
                ),
            ),
            values_narrow(self.rlps()) ==> spent(
                *old(stack),
                *final(stack),
                descent_bytes(depth as int, true),
            ),
            *final(final(stack).peak) == *final(old(stack).peak),
            keeps_length(
                old(stack).free@,
                final(old(stack).free)@,
                final(stack).free@,
                final(final(stack).free)@,
            ),
        decreases MAX_NIBBLES - depth, 1nat,
    {
        let ghost nodes = self.state.witness();
        let ghost rlps = self.rlps();
        let ghost change: Change = (*key, value);
        let ghost applied = self.applied(seq![change], depth as nat);
        let ghost left = key_from(change, depth as nat);
        let ghost len = (64 - depth) as nat;
        proof {
            lemma_one(change, rlps, depth as nat);
            lemma_unpacked(key@);
            lemma_tail_floor(depth as int);
            lemma_extension_parts(nodes, node_rlp@, encoded@, child@, applied, len);
        }
        let ghost whole = path_of(encoded@);
        proof {
            lemma_follows(change, depth as nat, whole);
            lemma_path_of_is_path(encoded@);
        }
        if let Some(taken) = path_from(key, depth, encoded) {
            proof {
                lemma_one_below(change, rlps, depth as nat, whole);
                lemma_extension_follows(nodes, node_rlp@, encoded@, child@, applied, len);
                lemma_descent_bytes(depth as int, depth + taken, true);
            }
            let resolved = match self.state.resolve_child(child) {
                Ok(resolved) => resolved,
                Err(error) => return Err(error),
            };
            // A deletion can collapse the child into a short node, whose path this
            // extension's must absorb for the trie to stay canonical.
            if value.is_none() {
                let updated = match self.update_one(
                    resolved,
                    key,
                    depth + taken,
                    value,
                    stack,
                ) {
                    Ok(updated) => updated,
                    Err(error) => return Err(error),
                };
                if is_empty_node(updated) {
                    return Ok(empty_node());
                }
                let mut buf: [u8; 64] = [0; 64];
                let path = match hex_prefix_decode(encoded, &mut buf) {
                    Ok(path) => path,
                    Err(error) => return Err(error),
                };
                return node_under(path, updated, None, stack);
            }
            let carried = {
                let mut lent = stack.lend();
                let updated = match self.update_one(
                    resolved,
                    key,
                    depth + taken,
                    value,
                    &mut lent,
                ) {
                    Ok(updated) => updated,
                    Err(error) => return Err(error),
                };
                if is_empty_node(updated) {
                    return Ok(empty_node());
                }
                Carried::of(updated)
            };
            let item = carried.write(stack);
            proof {
                assert(encoded@.len() <= 33);
                lemma_encoded_extension_len(encoded@, item@);
            }
            return Ok(encode_extension_encoded(encoded, item, stack));
        }
        proof {
            lemma_one_parts(change, rlps, depth as nat, whole);
            if whole.len() <= len {
                lemma_split_extension(nodes, node_rlp@, whole, child@, applied, len);
            }
        }

        let mut buf: [u8; 64] = [0; 64];
        let path = match hex_prefix_decode(encoded, &mut buf) {
            Ok(path) => path,
            Err(error) => return Err(error),
        };
        // A path that would carry the descent past the last nibble of a key belongs to no
        // node the trie holds. Refusing it before the split builds anything is what keeps a
        // witness the descent turns down from costing it scratch.
        if depth + path.len() > MAX_NIBBLES {
            return Err(PathError::MalformedPath);
        }

        // The key leaves the path, so it was never in this subtree.
        let index: u32 = match value {
            Some(index) => index,
            None => return Ok(node_rlp),
        };

        // Split the extension where the key leaves it, putting what is left of each side
        // under a branch.
        let written = key_nibbles(key);
        let remaining = slice_subrange(written.as_slice(), depth, MAX_NIBBLES);
        assert(remaining@ =~= left);
        let shared: usize = common_prefix_len(path, remaining);
        proof {
            lemma_descent_bytes(depth as int, 64, true);
        }
        let existing_item: &'s [u8] = if shared + 1 < path.len() {
            let tail = slice_subrange(path, shared + 1, path.len());
            assert(tail@ =~= whole.skip(shared + 1));
            assert(is_path(tail@));
            proof {
                lemma_extension_len(tail@, child@);
            }
            let extension = encode_extension(tail, child, stack);
            reference(extension, stack)
        } else {
            child
        };
        Ok(self.parting_branch(path, existing_item, remaining, shared, index, stack))
    }

    /// Applies one change to a branch.
    fn update_one_branch<'s>(
        &self,
        branch: Branch<'s>,
        key: &[u8; 32],
        depth: usize,
        value: Option<u32>,
        stack: &mut DynStack<'s>,
    ) -> (updated_rlp: Result<&'s [u8], PathError>)
        requires
            depth <= MAX_NIBBLES,
            values_fit(self.rlps()),
            value matches Some(index) ==> index < self.rlps().len(),
            branch.well_formed(),
        ensures
            comes_to(
                updated_rlp,
                branch_updated(
                    self.state.witness(),
                    branch.payload@,
                    self.applied(seq![(*key, value)], depth as nat),
                    (MAX_NIBBLES - depth) as nat,
                ),
            ),
            values_narrow(self.rlps()) ==> spent(
                *old(stack),
                *final(stack),
                descent_bytes(depth as int, true),
            ),
            *final(final(stack).peak) == *final(old(stack).peak),
            keeps_length(
                old(stack).free@,
                final(old(stack).free)@,
                final(stack).free@,
                final(final(stack).free)@,
            ),
        decreases MAX_NIBBLES - depth, 1nat,
    {
        let ghost nodes = self.state.witness();
        let ghost rlps = self.rlps();
        let ghost change: Change = (*key, value);
        let ghost applied = self.applied(seq![change], depth as nat);
        let ghost left = key_from(change, depth as nat);
        let ghost len = (64 - depth) as nat;
        proof {
            lemma_one(change, rlps, depth as nat);
            lemma_unpacked(key@);
            lemma_tail_floor(depth as int);
            lemma_branch_one(nodes, branch.payload@, applied, len);
            if depth < 64 {
                lemma_descent_bytes(depth as int, depth + 1, true);
            }
        }
        if depth == MAX_NIBBLES {
            return Err(PathError::ValueInBranch);
        }
        let nibble: u8 = nibble_at(key, depth);
        proof {
            assert(left[0] == nibble);
            assert(left.subrange(0, 1) =~= seq![nibble]);
            lemma_one_below(change, rlps, depth as nat, seq![nibble]);
            lemma_branch_items(branch.payload@);
            lemma_item_start(branch.payload@, (nibble + 1) as nat);
        }
        let (start, end) = match branch.child_span(nibble) {
            Ok(span) => span,
            Err(error) => return Err(error),
        };
        let size: usize = branch.payload.len();
        let child = match self.state.resolve_child(
            slice_subrange(branch.payload, start, end),
        ) {
            Ok(child) => child,
            Err(error) => return Err(error),
        };

        // A deletion can leave the branch with a single child or none at all, which only
        // inspecting every one of them tells, and a collapse may still read the child's own
        // encoding, so it builds in this frame's own scratch rather than in a loan.
        if value.is_none() {
            let mut children = match branch_children(branch.payload) {
                Ok(children) => children,
                Err(error) => return Err(error),
            };
            let ghost items = items_view(children);
            let updated = match self.update_one(child, key, depth + 1, value, stack) {
                Ok(updated) => updated,
                Err(error) => return Err(error),
            };
            children[nibble as usize] = reference(updated, stack);
            assert(items_view(children) =~= items.update(
                nibble as int,
                reference_of(updated@),
            ));
            return self.close_branch(&children, Some((nibble, updated)), stack);
        }

        let carried = {
            let mut lent = stack.lend();
            let updated = match self.update_one(
                child,
                key,
                depth + 1,
                value,
                &mut lent,
            ) {
                Ok(updated) => updated,
                Err(error) => return Err(error),
            };
            Carried::of(updated)
        };
        let item = carried.write(stack);
        splice_branch(branch.payload, start, end, item, stack)
    }

    /// The RLP of the node that replaces this branch, which a deletion can leave collapsed into a
    /// short node or empty.
    #[verifier::rlimit(40)]
    #[verifier::spinoff_prover]
    pub fn update_branch<'s>(
        &self,
        children: [&'s [u8]; 16],
        changes: &[Change],
        depth: usize,
        prebuilt: Prebuilt<'s>,
        stack: &mut DynStack<'s>,
    ) -> (node_rlp: Result<&'s [u8], PathError>)
        requires
            self.takes(changes@, depth as nat),
            depth < MAX_NIBBLES,
            narrow_items(items_view(children)),
        ensures
            comes_to(
                node_rlp,
                children_updated(
                    self.state.witness(),
                    items_view(children),
                    self.applied(changes@, depth as nat),
                    (MAX_NIBBLES - depth) as nat,
                    prebuilt_view(prebuilt),
                ),
            ),
            values_narrow(self.rlps()) ==> spent(
                *old(stack),
                *final(stack),
                self.branch_bytes(items_view(children), prebuilt_view(prebuilt), depth as nat),
            ),
            values_narrow(self.rlps()) && old(stack).free@.len() >= self.branch_bytes(
                items_view(children),
                prebuilt_view(prebuilt),
                depth as nat,
            ) ==> reached(
                *old(stack),
                *final(stack),
                branch_floor(
                    self.state.witness(),
                    items_view(children),
                    self.applied(changes@, depth as nat),
                    (MAX_NIBBLES - depth) as nat,
                    prebuilt_view(prebuilt),
                ),
            ),
            *final(final(stack).peak) == *final(old(stack).peak),
            keeps_length(
                old(stack).free@,
                final(old(stack).free)@,
                final(stack).free@,
                final(final(stack).free)@,
            ),
        decreases MAX_NIBBLES - depth, 1nat,
    {
        let ghost nodes = self.state.witness();
        let ghost items = items_view(children);
        let ghost applied = self.applied(changes@, depth as nat);
        let ghost rlps = self.rlps();
        let ghost len = (64 - depth) as nat;
        let ghost initial = *stack;
        let ghost roomy = branch_leaves_room(nodes, items, len, prebuilt_view(prebuilt));
        proof {
            lemma_any_removal(changes@, rlps, depth as nat);
            lemma_room_saves(depth + 1);
            lemma_branch_budget(depth as int, roomy);
            lemma_children_updated(nodes, items, applied, len, prebuilt_view(prebuilt));
            lemma_children_run(nodes, items, applied, len, prebuilt_view(prebuilt), 0);
            lemma_run_floor(nodes, items, applied, len, prebuilt_view(prebuilt), 0);
            lemma_branch_floor(nodes, items, applied, len, prebuilt_view(prebuilt));
        }
        let ghost fits = values_narrow(rlps) && initial.free@.len() >= branch_descent_bytes(
            depth as int,
            roomy,
        );
        let deletes = has_deletion(changes);

        // A collapse can pick a child this frame builds only when every child it leaves alone is
        // already empty, since one surviving witness child is enough to keep the branch a branch.
        let collapse_reaches = deletes && self.untouched_empty(&children, changes, depth);
        // Room for the one child a collapse could still read, taken from this frame's own scratch
        // rather than from what it lends, so the loans a child returns leave it standing.
        let mut spare: Option<&'s mut [u8]> = if collapse_reaches {
            Some(stack.allocate(MAX_BRANCH_RLP))
        } else {
            None
        };
        let mut slots: [&'s [u8]; 16] = children;
        let mut built: Prebuilt<'s> = None;
        let mut at: usize = 0;
        let ghost mut next: int = 0;
        let ghost mut emptied = false;
        let ghost mut kept: int = if collapse_reaches { MAX_BRANCH_RLP as int } else { 0 };
        let ghost reserved = kept;
        while at < changes.len()
            invariant
                at <= changes@.len(),
                0 <= next <= 16,
                depth < 64,
                len == 64 - depth,
                nodes == self.state.witness(),
                rlps == self.rlps(),
                self.takes(changes@, depth as nat),
                applied == self.applied(changes@, depth as nat),
                collapse_reaches == collapse_reaches_built(items, applied),
                initial == *old(stack),
                items == items_view(children),
                items.len() == 16,
                narrow_items(items_view(slots)),
                forall|n: int| next <= n < 16 ==> #[trigger] items_view(slots)[n] == items[n],
                forall|i: int|
                    0 <= i < at ==> unpacked((#[trigger] changes@[i]).0@)[depth as int] < next,
                forall|i: int|
                    at <= i < changes@.len() ==> unpacked((#[trigger] changes@[i]).0@)[depth as int]
                        >= next,
                children_run(nodes, items, applied, len, prebuilt_view(prebuilt), next as nat)
                    == Ok::<(Seq<Seq<u8>>, Option<(u8, Seq<u8>)>), PathError>(
                    (items_view(slots), prebuilt_view(built)),
                ),
                spare is Some <==> collapse_reaches && built is None,
                spare matches Some(room) ==> room@.len() == MAX_BRANCH_RLP,
                reserved == (if collapse_reaches { MAX_BRANCH_RLP as int } else { 0 }),
                kept <= reserved + 33 * next,
                emptied ==> kept <= reserved + 33 * next - 32,
                emptied ==> exists|i: int|
                    0 <= i < 16 && #[trigger] items_view(slots)[i] == empty_rlp() && i < next,
                depth == 63 ==> (emptied <==> exists|i: int|
                    0 <= i < at && (#[trigger] changes@[i]).1 is None),
                values_narrow(rlps) ==> held(
                    initial,
                    *stack,
                    kept,
                    branch_descent_bytes(depth as int, roomy),
                ),
                roomy == branch_leaves_room(nodes, items, len, prebuilt_view(prebuilt)),
                descent_bytes(depth + 1, true) <= descent_bytes(depth + 1, false),
                reserved + 495 + descent_bytes(depth + 1, roomy) <= branch_descent_bytes(
                    depth as int,
                    roomy,
                ),
                reserved + 528 <= branch_descent_bytes(depth as int, roomy),
                reserved == set_aside(items, applied),
                kept == reserved + run_taken(
                    nodes,
                    items,
                    applied,
                    len,
                    prebuilt_view(prebuilt),
                    next as nat,
                ),
                fits == (values_narrow(rlps) && initial.free@.len() >= branch_descent_bytes(
                    depth as int,
                    roomy,
                )),
                fits ==> initial.free@.len() - stack.free@.len() == kept,
                fits ==> reached(
                    initial,
                    *stack,
                    (reserved + run_floor(
                        nodes,
                        items,
                        applied,
                        len,
                        prebuilt_view(prebuilt),
                        next as nat,
                    )) as nat,
                ),
                *final(stack.peak) == *final(initial.peak),
                (spare matches Some(room) ==> final(room)@.len() == MAX_BRANCH_RLP)
                    ==> keeps_length(
                    initial.free@,
                    final(initial.free)@,
                    stack.free@,
                    final(stack.free)@,
                ),
            decreases changes.len() - at,
        {
            let (nibble, end) = changes_by_nibble(changes, at, depth);
            // Sorted keys leave this child a contiguous sub-slice, so its subtree is finished here
            // and only the item the parent references it through has to outlive it.
            let run = slice_subrange(changes, at, end);
            let ghost before = children_run(
                nodes,
                items,
                applied,
                len,
                prebuilt_view(prebuilt),
                nibble as nat,
            );
            let ghost after = children_run(
                nodes,
                items,
                applied,
                len,
                prebuilt_view(prebuilt),
                (nibble + 1) as nat,
            );
            proof {
                assert forall|n: u8| next <= n < nibble implies no_keys(
                    #[trigger] below(applied, seq![n]),
                ) by {
                    lemma_untouched(changes@, rlps, depth as nat, n);
                }
                lemma_run_skips(
                    nodes,
                    items,
                    applied,
                    len,
                    prebuilt_view(prebuilt),
                    next as nat,
                    nibble as nat,
                );
                lemma_floor_skips(
                    nodes,
                    items,
                    applied,
                    len,
                    prebuilt_view(prebuilt),
                    next as nat,
                    nibble as nat,
                );
                lemma_run_floor(nodes, items, applied, len, prebuilt_view(prebuilt), nibble);
                lemma_branch_floor(nodes, items, applied, len, prebuilt_view(prebuilt));
                lemma_nibble_run(changes@, rlps, depth as nat, nibble, at as int, end as int);
                lemma_change_count(run@, rlps, (depth + 1) as nat);
                lemma_children_run(nodes, items, applied, len, prebuilt_view(prebuilt), nibble);
                lemma_children_updated(nodes, items, applied, len, prebuilt_view(prebuilt));
                if after is Err {
                    lemma_run_fails(
                        nodes,
                        items,
                        applied,
                        len,
                        prebuilt_view(prebuilt),
                        (nibble + 1) as nat,
                        16,
                    );
                    lemma_floor_fails(
                        nodes,
                        items,
                        applied,
                        len,
                        prebuilt_view(prebuilt),
                        (nibble + 1) as nat,
                        16,
                    );
                }
                assert(items_view(slots)[nibble as int] == items[nibble as int]);
            }
            let item: &'s [u8] = slots[nibble as usize];
            let child: &'s [u8] = match prebuilt {
                Some((at_nibble, node_rlp)) if at_nibble == nibble => node_rlp,
                _ => match self.state.resolve_child(item) {
                    Ok(child) => child,
                    Err(error) => return Err(error),
                },
            };
            let ghost emptying = depth == 63 && run@[0].1 is None;
            proof {
                assert(child_at(nodes, items, prebuilt_view(prebuilt), nibble) == Ok::<
                    Seq<u8>,
                    PathError,
                >(child@));
                if roomy {
                    lemma_child_leaves_room(nodes, items, len, prebuilt_view(prebuilt), nibble);
                }
                if emptying {
                    lemma_emptied(nodes, child@, run@, rlps);
                }
            }
            let (carried, copied, room) = match self.update_child(
                child,
                run,
                depth + 1,
                spare,
                stack,
            ) {
                Ok(done) => done,
                Err(error) => return Err(error),
            };
            spare = room;
            if let Some(copied) = copied {
                built = Some((nibble, copied));
            }
            let ghost earlier = items_view(slots);
            slots[nibble as usize] = carried.write(stack);
            proof {
                assert(items_view(slots) =~= earlier.update(nibble as int, carried.item()));
                kept = kept + carried.item().len();
                if emptying {
                    assert(items_view(slots)[nibble as int] == empty_rlp());
                    assert(changes@[at as int].1 is None);
                    emptied = true;
                } else if emptied {
                    let i = choose|i: int|
                        0 <= i < 16 && #[trigger] earlier[i] == empty_rlp() && i < next;
                    assert(items_view(slots)[i] == empty_rlp());
                }
                if depth == 63 {
                    lemma_last_nibble_run(run@);
                    assert(run@[0] == changes@[at as int]);
                }
                next = nibble + 1;
            }
            at = end;
        }
        proof {
            assert forall|n: u8| next <= n < 16 implies no_keys(
                #[trigger] below(applied, seq![n]),
            ) by {
                lemma_untouched(changes@, rlps, depth as nat, n);
            }
            lemma_run_skips(nodes, items, applied, len, prebuilt_view(prebuilt), next as nat, 16);
            lemma_floor_skips(nodes, items, applied, len, prebuilt_view(prebuilt), next as nat, 16);
            lemma_branch_len(items_view(slots));
        }

        if deletes {
            // A prebuilt child no change reaches keeps its slot and its encoding. A change that
            // reaches it overwrites that slot, so the entry a collapse could read is the one this
            // frame rebuilt, and where it rebuilt nothing the slot is empty and no collapse
            // reaches it.
            let last = match built {
                Some(_) => built,
                None => prebuilt,
            };
            return self.close_branch(&slots, last, stack);
        }
        Ok(encode_branch(&slots, stack))
    }

    /// Updates one child of a branch in scratch it hands back, and carries the item it is referenced
    /// through out of the loan. A child that is not empty is copied whole into `spare`, where there
    /// is room for one.
    fn update_child<'s>(
        &self,
        child: &'s [u8],
        changes: &[Change],
        depth: usize,
        spare: Option<&'s mut [u8]>,
        stack: &mut DynStack<'s>,
    ) -> (done: Result<(Carried, Option<&'s [u8]>, Option<&'s mut [u8]>), PathError>)
        requires
            self.takes(changes@, depth as nat),
            changes@.len() > 0,
            spare matches Some(room) ==> room@.len() == MAX_BRANCH_RLP,
        ensures
            match updated(
                self.state.witness(),
                child@,
                self.applied(changes@, depth as nat),
                (MAX_NIBBLES - depth) as nat,
            ) {
                Err(error) => done is Err && done->Err_0 == error,
                Ok(child_rlp) => if spare is Some && child_rlp != empty_rlp() {
                    if child_rlp.len() > MAX_BRANCH_RLP {
                        done is Err && done->Err_0 == PathError::OversizedNode
                    } else {
                        &&& done is Ok
                        &&& done->Ok_0.0.well_formed()
                        &&& done->Ok_0.0.item() == reference_of(child_rlp)
                        &&& done->Ok_0.1 is Some
                        &&& done->Ok_0.1->Some_0@ == child_rlp
                        &&& done->Ok_0.2 is None
                    }
                } else {
                    &&& done is Ok
                    &&& done->Ok_0.0.well_formed()
                    &&& done->Ok_0.0.item() == reference_of(child_rlp)
                    &&& done->Ok_0.1 is None
                    &&& done->Ok_0.2 is Some <==> spare is Some
                    &&& done->Ok_0.2 matches Some(room) ==> room@.len() == MAX_BRANCH_RLP
                        && final(room)@ == final(spare->Some_0)@
                },
            },
            done is Err || done->Ok_0.2 is None ==> (spare matches Some(room) ==> final(room)@.len()
                == MAX_BRANCH_RLP),
            values_narrow(self.rlps()) ==> held(
                *old(stack),
                *final(stack),
                0,
                self.node_bytes(child@, depth as nat),
            ),
            values_narrow(self.rlps()) && old(stack).free@.len() >= self.node_bytes(
                child@,
                depth as nat,
            ) ==> reached(
                *old(stack),
                *final(stack),
                floor_of(
                    self.state.witness(),
                    child@,
                    self.applied(changes@, depth as nat),
                    (MAX_NIBBLES - depth) as nat,
                ),
            ),
            *final(final(stack).peak) == *final(old(stack).peak),
            keeps_length(
                old(stack).free@,
                final(old(stack).free)@,
                final(stack).free@,
                final(final(stack).free)@,
            ),
        decreases MAX_NIBBLES - depth, 5nat,
    {
        let mut lent = stack.lend();
        let updated_rlp = match self.update(child, changes, depth, &mut lent) {
            Ok(updated_rlp) => updated_rlp,
            Err(error) => return Err(error),
        };
        let carried = Carried::of(updated_rlp);
        if is_empty_node(updated_rlp) {
            return Ok((carried, None, spare));
        }
        match spare {
            Some(room) => {
                let size: usize = updated_rlp.len();
                if size > MAX_BRANCH_RLP {
                    return Err(PathError::OversizedNode);
                }
                write_bytes(room, 0, updated_rlp);
                let copied: &'s [u8] = slice_subrange(room, 0, size);
                assert(copied@ =~= updated_rlp@);
                Ok((carried, Some(copied), None))
            },
            None => Ok((carried, None, None)),
        }
    }

    /// Whether every child no change reaches is already absent.
    fn untouched_empty(&self, children: &[&[u8]; 16], changes: &[Change], depth: usize) -> (empty: bool)
        requires
            self.takes(changes@, depth as nat),
            depth < MAX_NIBBLES,
        ensures
            empty == forall|nibble: u8|
                nibble < 16 ==> (no_keys(
                    #[trigger] below(self.applied(changes@, depth as nat), seq![nibble]),
                ) ==> items_view(*children)[nibble as int] == empty_rlp()),
    {
        let ghost applied = self.applied(changes@, depth as nat);
        let mut touched: [bool; 16] = [false; 16];
        let mut at: usize = 0;
        while at < changes.len()
            invariant
                at <= changes@.len(),
                depth < 64,
                self.takes(changes@, depth as nat),
                forall|n: int|
                    0 <= n < 16 ==> (#[trigger] touched@[n] <==> exists|i: int|
                        0 <= i < at && unpacked((#[trigger] changes@[i]).0@)[depth as int] == n),
            decreases changes.len() - at,
        {
            let nibble: u8 = nibble_at(&changes[at].0, depth);
            let ghost before = touched@;
            touched[nibble as usize] = true;
            proof {
                assert forall|n: int| 0 <= n < 16 implies (#[trigger] touched@[n] <==> exists|i: int|
                    0 <= i < at + 1 && unpacked((#[trigger] changes@[i]).0@)[depth as int] == n) by {
                    if n == nibble {
                        assert(unpacked(changes@[at as int].0@)[depth as int] == n);
                    } else if before[n] {
                        let i = choose|i: int|
                            0 <= i < at && unpacked((#[trigger] changes@[i]).0@)[depth as int] == n;
                        assert(unpacked(changes@[i].0@)[depth as int] == n);
                    }
                }
            }
            at = at + 1;
        }
        proof {
            assert forall|n: u8| n < 16 implies (touched@[n as int] <==> !no_keys(
                #[trigger] below(applied, seq![n]),
            )) by {
                if touched@[n as int] {
                    let i = choose|i: int|
                        0 <= i < changes@.len() && unpacked((#[trigger] changes@[i]).0@)[depth as int]
                            == n;
                    lemma_change_at(changes@, self.rlps(), depth as nat, i);
                    let key = key_from(changes@[i], depth as nat);
                    lemma_unpacked(changes@[i].0@);
                    assert(key =~= seq![n] + key.skip(1));
                    assert(below(applied, seq![n]).contains_key(key.skip(1)));
                } else {
                    lemma_untouched(changes@, self.rlps(), depth as nat, n);
                }
            }
        }
        let mut nibble: u8 = 0;
        while nibble < 16
            invariant
                nibble <= 16,
                applied == self.applied(changes@, depth as nat),
                forall|n: u8|
                    n < 16 ==> (touched@[n as int] <==> !no_keys(#[trigger] below(applied, seq![n]))),
                forall|n: u8|
                    n < nibble ==> (no_keys(#[trigger] below(applied, seq![n])) ==> items_view(
                        *children,
                    )[n as int] == empty_rlp()),
            decreases 16 - nibble,
        {
            if !touched[nibble as usize] && !is_empty_node(children[nibble as usize]) {
                proof {
                    assert(no_keys(below(applied, seq![nibble])));
                    assert(items_view(*children)[nibble as int] != empty_rlp());
                }
                return false;
            }
            nibble = nibble + 1;
        }
        true
    }

    /// The RLP of the subtree that replaces this leaf, which keeps the leaf itself only when no
    /// change names its key.
    pub fn update_leaf<'s>(
        &self,
        encoded: &[u8],
        value: &'s [u8],
        changes: &[Change],
        depth: usize,
        stack: &mut DynStack<'s>,
    ) -> (node_rlp: Result<&'s [u8], PathError>)
        requires
            self.takes(changes@, depth as nat),
            changes@.len() > 1,
            encoded@.len() > 0,
            value@.len() <= MAX_LEAF_VALUE,
        ensures
            forall|leaf_rlp: Seq<u8>|
                comes_to(
                    node_rlp,
                    #[trigger] leaf_updated(
                        leaf_rlp,
                        path_of(encoded@),
                        value@,
                        self.applied(changes@, depth as nat),
                        (MAX_NIBBLES - depth) as nat,
                    ),
                ),
            values_narrow(self.rlps()) ==> spent(
                *old(stack),
                *final(stack),
                descent_bytes(depth as int, true),
            ),
            *final(final(stack).peak) == *final(old(stack).peak),
            keeps_length(
                old(stack).free@,
                final(old(stack).free)@,
                final(stack).free@,
                final(final(stack).free)@,
            ),
    {
        let ghost applied = self.applied(changes@, depth as nat);
        proof {
            lemma_change_count(changes@, self.rlps(), depth as nat);
            lemma_path_of_is_path(encoded@);
            lemma_tail_floor(depth as int);
        }
        let mut buf: [u8; 64] = [0; 64];
        let path = match hex_prefix_decode(encoded, &mut buf) {
            Ok(path) => path,
            Err(error) => return Err(error),
        };
        // Every key is a hash of one length, so a leaf ends exactly where a key does. A path any
        // longer would carry the split past the last nibble a key has.
        if depth + path.len() != MAX_NIBBLES {
            return Err(PathError::MalformedPath);
        }
        // A change naming the leaf's own key replaces or removes it, so the leaf survives as an
        // entry of its own only when no change reaches it.
        let overridden = self.names_path(changes, depth, encoded);
        let existing: Option<(&[u8], &'s [u8])> = if overridden {
            None
        } else {
            Some((path, value))
        };
        proof {
            if overridden {
                assert(overlay(Map::empty(), applied) =~= overlay(entry(path@, value@), applied));
            }
        }
        Ok(self.build_subtree(changes, depth, existing, stack))
    }

    /// Whether any change is of the key `encoded` ends on, taken from `depth`.
    fn names_path(&self, changes: &[Change], depth: usize, encoded: &[u8]) -> (named: bool)
        requires
            self.takes(changes@, depth as nat),
            encoded@.len() > 0,
            path_of(encoded@).len() == MAX_NIBBLES - depth,
        ensures
            named == self.applied(changes@, depth as nat).contains_key(path_of(encoded@)),
    {
        let ghost path = path_of(encoded@);
        let mut at: usize = 0;
        while at < changes.len()
            invariant
                at <= changes@.len(),
                encoded@.len() > 0,
                path == path_of(encoded@),
                path.len() == 64 - depth,
                self.takes(changes@, depth as nat),
                forall|i: int| 0 <= i < at ==> key_from(#[trigger] changes@[i], depth as nat) != path,
            decreases changes.len() - at,
        {
            proof {
                let key = unpacked(changes@[at as int].0@);
                lemma_unpacked(changes@[at as int].0@);
                assert(key.subrange(depth as int, depth + path.len()) =~= key.skip(depth as int));
            }
            if path_from(&changes[at].0, depth, encoded).is_some() {
                proof {
                    lemma_change_at(changes@, self.rlps(), depth as nat, at as int);
                }
                return true;
            }
            at = at + 1;
        }
        proof {
            if self.applied(changes@, depth as nat).contains_key(path) {
                let i = lemma_change_of(changes@, self.rlps(), depth as nat, path);
            }
        }
        false
    }

    /// The items of the branch a change set shapes where its keys part, which the entry the subtree
    /// already held joins under its own nibble.
    fn build_children<'s>(
        &self,
        changes: &[Change],
        depth: usize,
        existing: Option<(&[u8], &'s [u8])>,
        stack: &mut DynStack<'s>,
    ) -> (items: [&'s [u8]; 16])
        requires
            depth < MAX_NIBBLES,
            self.takes(changes@, depth as nat),
            existing matches Some((path, value)) ==> {
                &&& is_path(path@)
                &&& path@.len() == MAX_NIBBLES - depth
                &&& value@.len() <= MAX_LEAF_VALUE
                &&& !self.applied(changes@, depth as nat).contains_key(path@)
            },
        ensures
            items_view(items) == trie_items(
                overlay(entries_of(existing), self.applied(changes@, depth as nat)),
                (MAX_NIBBLES - depth) as nat,
            ),
            narrow_items(items_view(items)),
            values_narrow(self.rlps()) ==> held(
                *old(stack),
                *final(stack),
                561,
                495 + descent_bytes(depth + 1, true),
            ),
            *final(final(stack).peak) == *final(old(stack).peak),
            keeps_length(
                old(stack).free@,
                final(old(stack).free)@,
                final(stack).free@,
                final(final(stack).free)@,
            ),
        decreases MAX_NIBBLES - depth, 0nat,
    {
        let ghost rlps = self.rlps();
        let ghost inner = self.applied(changes@, depth as nat);
        let ghost held_entries = entries_of(existing);
        let ghost entries = overlay(held_entries, inner);
        let ghost rest = (63 - depth) as nat;
        let ghost before = *stack;
        let mut items: [&'s [u8]; 16] = [empty_node(); 16];
        let ghost mut next: int = 0;
        let mut at: usize = 0;
        proof {
            assert(items_view(items) =~= run_items(inner, entries, rest, 0));
            lemma_tail_floor((depth + 1) as int);
        }
        while at < changes.len()
            invariant
                at <= changes@.len(),
                0 <= next <= 16,
                depth < 64,
                rest == 63 - depth,
                rlps == self.rlps(),
                self.takes(changes@, depth as nat),
                inner == self.applied(changes@, depth as nat),
                held_entries == entries_of(existing),
                entries == overlay(held_entries, inner),
                existing matches Some((path, value)) ==> {
                    &&& is_path(path@)
                    &&& path@.len() == MAX_NIBBLES - depth
                    &&& value@.len() <= MAX_LEAF_VALUE
                    &&& !inner.contains_key(path@)
                },
                forall|i: int|
                    0 <= i < at ==> unpacked((#[trigger] changes@[i]).0@)[depth as int] < next,
                forall|i: int|
                    at <= i < changes@.len() ==> unpacked((#[trigger] changes@[i]).0@)[depth as int]
                        >= next,
                items_view(items) == run_items(inner, entries, rest, next),
                forall|n: u8|
                    n < next && #[trigger] writes_below(inner, n) ==> items_view(items)[n as int]
                        != empty_rlp(),
                values_narrow(rlps) ==> held(
                    before,
                    *stack,
                    33 * next,
                    495 + descent_bytes(depth + 1, true),
                ),
                descent_bytes(depth + 1, true) >= LEAF_TAIL,
                *final(stack.peak) == *final(before.peak),
                keeps_length(
                    before.free@,
                    final(before.free)@,
                    stack.free@,
                    final(stack.free)@,
                ),
            decreases changes.len() - at,
        {
            let (nibble, end) = changes_by_nibble(changes, at, depth);
            let run = slice_subrange(changes, at, end);
            proof {
                lemma_nibble_run(changes@, rlps, depth as nat, nibble, at as int, end as int);
                lemma_any_write(run@, rlps, (depth + 1) as nat);
                assert forall|n: u8| next <= n < nibble implies !writes_below(inner, n) by {
                    lemma_untouched(changes@, rlps, depth as nat, n);
                }
            }
            let ghost earlier = items_view(items);
            if has_write(run) {
                // The entry the subtree already held joins the changes that share its nibble, and
                // stands alone below only when no write reaches it.
                let existing_below: Option<(&[u8], &'s [u8])> = match existing {
                    Some((path, value)) if path[0] == nibble => Some(
                        (slice_subrange(path, 1, path.len()), value),
                    ),
                    _ => None,
                };
                proof {
                    if existing_below is Some {
                        assert(existing_below->Some_0.0@ =~= existing->Some_0.0@.skip(1));
                    }
                    lemma_existing_below(
                        held_view(existing),
                        held_view(existing_below),
                        nibble,
                        inner,
                    );
                    lemma_below_overlay(held_entries, inner, seq![nibble]);
                }
                let carried = {
                    let mut lent = stack.lend();
                    let sub = self.build_subtree(run, depth + 1, existing_below, &mut lent);
                    proof {
                        lemma_reference_filled(sub@);
                        lemma_still_written(entries_of(existing_below), run@, rlps, (depth + 1) as nat);
                    }
                    Carried::of(sub)
                };
                items[nibble as usize] = carried.write(stack);
                assert(items_view(items) =~= earlier.update(
                    nibble as int,
                    reference_of(trie_rlp(below(entries, seq![nibble]), rest)),
                ));
            }
            proof {
                lemma_run_items(inner, entries, rest, next, nibble);
                assert(items_view(items) =~= run_items(inner, entries, rest, nibble + 1));
                assert forall|n: u8| n <= nibble && #[trigger] writes_below(inner, n) implies items_view(
                    items,
                )[n as int] != empty_rlp() by {
                    if n < nibble {
                        assert(n < next);
                        assert(items_view(items)[n as int] == earlier[n as int]);
                    }
                }
                next = nibble + 1;
            }
            at = end;
        }
        proof {
            assert forall|n: u8| next <= n < 16 implies !writes_below(inner, n) by {
                lemma_untouched(changes@, rlps, depth as nat, n);
            }
            if next < 16 {
                lemma_run_items(inner, entries, rest, next, 15);
            }
            assert(items_view(items) =~= run_items(inner, entries, rest, 16));
        }
        let ghost looped = items_view(items);
        match existing {
            Some((path, value)) => {
                let nibble: u8 = path[0];
                let tail = slice_subrange(path, 1, path.len());
                assert(tail@ =~= path@.skip(1));
                assert(is_path(tail@));
                if is_empty_node(items[nibble as usize]) {
                    proof {
                        lemma_leaf_len(tail@, value@);
                    }
                    let carried = {
                        let mut lent = stack.lend();
                        Carried::of(encode_leaf(tail, value, &mut lent))
                    };
                    items[nibble as usize] = carried.write(stack);
                    assert(items_view(items) =~= looped.update(
                        nibble as int,
                        reference_of(leaf_rlp(tail@, value@)),
                    ));
                }
            },
            None => {},
        }
        proof {
            lemma_built_items(held_view(existing), inner, entries, looped, items_view(items), rest);
            lemma_trie_items(entries, rest + 1);
            assert forall|i: int| 0 <= i < 16 implies (#[trigger] items_view(items)[i]).len()
                <= MAX_ITEM by {
                assert(items_view(items)[i as u8 as int] == items_view(items)[i]);
            }
            assert forall|i: int| 0 <= i < 16 implies #[trigger] items_view(items)[i] == trie_items(
                entries,
                rest + 1,
            )[i] by {
                assert(items_view(items)[i as u8 as int] == items_view(items)[i]);
                assert(trie_items(entries, rest + 1)[i as u8 as int] == trie_items(
                    entries,
                    rest + 1,
                )[i]);
            }
            assert(items_view(items) =~= trie_items(entries, rest + 1));
        }
        items
    }
}

} // verus!
