//! The nodes of the trie a set of entries hashes to, as a walk or an update comes upon them.

use vstd::prelude::*;

use crate::canonical::{
    is_node, law_branch_round_trip, law_extension_round_trip, law_leaf_round_trip,
    law_reference_leads_back, whole_item, whole_items,
};
use crate::descent::node_under_of;
use crate::encode::{
    branch_rlp, extension_rlp, joined, lemma_branch_len, lemma_extension_len, lemma_leaf_len,
    lemma_list_filled, narrow_items, reference_of,
};
use crate::error::PathError;
use crate::nibbles::{hex_prefix, is_path, MAX_NIBBLES};
use crate::node::{empty_rlp, MAX_BRANCH_RLP, MAX_ITEM, MAX_LEAF_VALUE};
use crate::rlp::{rlp_list, rlp_string};
use crate::trie::{
    all_start_with, below, is_single, is_split, keyed, lemma_below, lemma_below_below,
    lemma_below_keyed, lemma_below_nothing, lemma_starts_with, lemma_trie_empty, lemma_trie_items,
    lemma_trie_leaf, lemma_trie_split, no_keys, only_key, parts, starts_with, the_key, trie_items,
    trie_rlp,
};

verus! {

/// Whether entries are ones a trie of keys `len` nibbles long can record: each under a whole key,
/// with a value no wider than an account.
pub open spec fn recordable(entries: Map<Seq<u8>, Seq<u8>>, len: nat) -> bool {
    &&& len <= MAX_NIBBLES
    &&& keyed(entries, len)
    &&& forall|key: Seq<u8>| #[trigger]
        entries.contains_key(key) ==> entries[key].len() <= MAX_LEAF_VALUE
}

/// Entries below a path are recordable with the nibbles left.
pub proof fn lemma_recordable_below(entries: Map<Seq<u8>, Seq<u8>>, len: nat, path: Seq<u8>)
    requires
        recordable(entries, len),
        path.len() <= len,
    ensures
        recordable(below(entries, path), (len - path.len()) as nat),
{
    lemma_below_keyed(entries, path, len);
    assert forall|key: Seq<u8>| #[trigger] below(entries, path).contains_key(key) implies below(
        entries,
        path,
    )[key].len() <= MAX_LEAF_VALUE by {
        assert(entries.contains_key(path + key));
    }
}

/// More than one key of one length part somewhere.
pub proof fn lemma_split_exists<V>(entries: Map<Seq<u8>, V>, len: nat) -> (path: Seq<u8>)
    requires
        keyed(entries, len),
        !no_keys(entries),
        !is_single(entries),
    ensures
        is_split(entries, path),
        path.len() < len,
        is_path(path),
    decreases len,
{
    let left = choose|key: Seq<u8>| entries.contains_key(key);
    assert(entries.contains_key(left));
    assert(!only_key(entries, left));
    let right = choose|key: Seq<u8>| #[trigger] entries.contains_key(key) && key != left;
    assert(entries.contains_key(right) && right != left) by {
        assert(exists|key: Seq<u8>| #[trigger] entries.contains_key(key) && key != left);
    }
    if len == 0 {
        assert(left =~= right);
    }
    if exists|key: Seq<u8>| #[trigger] entries.contains_key(key) && key[0] != left[0] {
        let other = choose|key: Seq<u8>| #[trigger] entries.contains_key(key) && key[0] != left[0];
        let path = Seq::<u8>::empty();
        assert(parts(path, left, other));
        assert forall|key: Seq<u8>| #[trigger] entries.contains_key(key) implies starts_with(
            key,
            path,
        ) by {
            assert(key.subrange(0, 0) =~= path);
        }
        path
    } else {
        let front = seq![left[0]];
        let inner = below(entries, front);
        assert forall|key: Seq<u8>| #[trigger] entries.contains_key(key) implies starts_with(
            key,
            front,
        ) by {
            assert(key[0] == left[0]);
            assert(key.subrange(0, 1) =~= front);
        }
        lemma_below_keyed(entries, front, len);
        lemma_below(entries, front, left);
        lemma_below(entries, front, right);
        lemma_starts_with(left, front);
        lemma_starts_with(right, front);
        assert(inner.contains_key(left.skip(1)) && inner.contains_key(right.skip(1)));
        assert(left.skip(1) != right.skip(1));
        assert forall|key: Seq<u8>| !only_key(inner, key) by {
            if only_key(inner, key) {
                assert(inner.contains_key(left.skip(1)) <==> left.skip(1) == key);
                assert(inner.contains_key(right.skip(1)) <==> right.skip(1) == key);
            }
        }
        let rest = lemma_split_exists(inner, (len - 1) as nat);
        let path = front + rest;
        lemma_split_above(entries, front, rest);
        assert(left[0] < 16);
        assert(is_path(path));
        path
    }
}

/// A path every key starts with goes in front of where they part below it, and comes off it.
pub proof fn lemma_split_above<V>(entries: Map<Seq<u8>, V>, front: Seq<u8>, rest: Seq<u8>)
    requires
        all_start_with(entries, front),
    ensures
        is_split(below(entries, front), rest) <==> is_split(entries, front + rest),
{
    let inner = below(entries, front);
    let path = front + rest;
    if is_split(inner, rest) {
        let (l, r) = choose|left: Seq<u8>, right: Seq<u8>|
            inner.contains_key(left) && inner.contains_key(right) && #[trigger] parts(
                rest,
                left,
                right,
            );
        assert(entries.contains_key(front + l) && entries.contains_key(front + r));
        assert(parts(path, front + l, front + r));
        assert forall|key: Seq<u8>| #[trigger] entries.contains_key(key) implies starts_with(
            key,
            path,
        ) by {
            lemma_below(entries, front, key);
            lemma_starts_with(key, front);
            let tail = key.skip(front.len() as int);
            assert(starts_with(tail, rest));
            assert(key.subrange(0, path.len() as int) =~= front + tail.subrange(
                0,
                rest.len() as int,
            ));
        }
    }
    if is_split(entries, path) {
        let (l, r) = choose|left: Seq<u8>, right: Seq<u8>|
            entries.contains_key(left) && entries.contains_key(right) && #[trigger] parts(
                path,
                left,
                right,
            );
        assert(starts_with(l, front) && starts_with(r, front));
        lemma_below(entries, front, l);
        lemma_below(entries, front, r);
        let (lt, rt) = (l.skip(front.len() as int), r.skip(front.len() as int));
        assert(inner.contains_key(lt) && inner.contains_key(rt));
        assert(parts(rest, lt, rt));
        assert forall|key: Seq<u8>| #[trigger] inner.contains_key(key) implies starts_with(
            key,
            rest,
        ) by {
            assert(entries.contains_key(front + key));
            assert(starts_with(front + key, path));
            assert((front + key).subrange(0, path.len() as int) =~= front + key.subrange(
                0,
                rest.len() as int,
            ));
            assert(key.subrange(0, rest.len() as int) =~= (front + key).subrange(
                0,
                path.len() as int,
            ).skip(front.len() as int));
            assert(path.skip(front.len() as int) =~= rest);
        }
    }
}

/// The root node of a trie is written the way a node is, and is empty only where there is no entry.
pub proof fn lemma_trie_node(entries: Map<Seq<u8>, Seq<u8>>, len: nat)
    requires
        recordable(entries, len),
    ensures
        is_node(trie_rlp(entries, len)),
        trie_rlp(entries, len).len() <= MAX_BRANCH_RLP,
        trie_rlp(entries, len) == empty_rlp() <==> no_keys(entries),
{
    let root = trie_rlp(entries, len);
    if no_keys(entries) {
        lemma_trie_empty(entries, len);
    } else if is_single(entries) {
        let key = the_key(entries);
        assert(only_key(entries, key));
        assert(entries.contains_key(key));
        lemma_trie_leaf(entries, len, key);
        lemma_leaf_len(key, entries[key]);
        let payload = rlp_string(hex_prefix(key, true)) + rlp_string(entries[key]);
        lemma_list_filled(payload);
        assert(root == rlp_list(payload));
    } else {
        let path = lemma_split_exists(entries, len);
        let items = trie_items(below(entries, path), (len - path.len()) as nat);
        lemma_trie_split(entries, len, path);
        lemma_trie_items_narrow(below(entries, path), (len - path.len()) as nat);
        lemma_branch_len(items);
        let payload = joined(items, 16) + empty_rlp();
        lemma_list_filled(payload);
        assert(branch_rlp(items) == rlp_list(payload));
        if path.len() > 0 {
            let item = reference_of(branch_rlp(items));
            lemma_extension_len(path, item);
            let above = rlp_string(hex_prefix(path, false)) + item;
            lemma_list_filled(above);
            assert(root == rlp_list(above));
        }
    }
}

/// The items of a branch are sixteen, each no wider than a reference.
proof fn lemma_trie_items_narrow(entries: Map<Seq<u8>, Seq<u8>>, len: nat)
    requires
        len > 0,
    ensures
        narrow_items(trie_items(entries, len)),
{
    lemma_trie_items(entries, len);
    assert forall|i: int| 0 <= i < 16 implies (#[trigger] trie_items(entries, len)[i]).len()
        <= MAX_ITEM by {
        assert(trie_items(entries, len)[i as u8 as int] == trie_items(entries, len)[i]);
    }
}

/// The items of a branch are told by their own fronts.
pub proof fn lemma_trie_items_whole(entries: Map<Seq<u8>, Seq<u8>>, len: nat)
    requires
        recordable(entries, len),
        len > 0,
    ensures
        whole_items(trie_items(entries, len)),
        forall|n: u8|
            n < 16 ==> (#[trigger] trie_items(entries, len)[n as int] == empty_rlp() <==> no_keys(
                below(entries, seq![n]),
            )),
{
    lemma_trie_items_narrow(entries, len);
    lemma_trie_items(entries, len);
    assert forall|n: u8| n < 16 implies whole_item(#[trigger] trie_items(entries, len)[n as int])
        && (trie_items(entries, len)[n as int] == empty_rlp() <==> no_keys(
        below(entries, seq![n]),
    )) by {
        lemma_recordable_below(entries, len, seq![n]);
        lemma_trie_node(below(entries, seq![n]), (len - 1) as nat);
        law_reference_leads_back(
            Map::empty(),
            trie_rlp(below(entries, seq![n]), (len - 1) as nat),
        );
    }
    assert forall|i: int| 0 <= i < 16 implies whole_item(#[trigger] trie_items(entries, len)[i]) by {
        assert(trie_items(entries, len)[i as u8 as int] == trie_items(entries, len)[i]);
    }
}

/// Entries that part at once are a branch, read back whole.
pub proof fn lemma_trie_branch(entries: Map<Seq<u8>, Seq<u8>>, len: nat)
    requires
        recordable(entries, len),
        is_split(entries, Seq::empty()),
    ensures
        len > 0,
        trie_rlp(entries, len) == branch_rlp(trie_items(entries, len)),
        whole_items(trie_items(entries, len)),
{
    let (l, r) = choose|left: Seq<u8>, right: Seq<u8>|
        entries.contains_key(left) && entries.contains_key(right) && #[trigger] parts(
            Seq::empty(),
            left,
            right,
        );
    assert(l.len() == len);
    lemma_trie_split(entries, len, Seq::empty());
    lemma_below_nothing(entries);
    lemma_trie_items_whole(entries, len);
}

/// Entries that share a path before they part are an extension over the branch where they do.
pub proof fn lemma_trie_extension(entries: Map<Seq<u8>, Seq<u8>>, len: nat, path: Seq<u8>)
    requires
        recordable(entries, len),
        is_split(entries, path),
        path.len() > 0,
    ensures
        path.len() < len,
        is_path(path),
        is_split(below(entries, path), Seq::empty()),
        trie_rlp(entries, len) == extension_rlp(
            path,
            reference_of(trie_rlp(below(entries, path), (len - path.len()) as nat)),
        ),
{
    let (l, r) = choose|left: Seq<u8>, right: Seq<u8>|
        entries.contains_key(left) && entries.contains_key(right) && #[trigger] parts(
            path,
            left,
            right,
        );
    assert(l.len() == len);
    assert(starts_with(l, path));
    assert(is_path(path)) by {
        assert forall|i: int| 0 <= i < path.len() implies #[trigger] path[i] < 16 by {
            assert(l.subrange(0, path.len() as int)[i] == l[i]);
        }
    }
    lemma_trie_split(entries, len, path);
    lemma_split_above(entries, path, Seq::empty());
    assert(path + Seq::empty() =~= path);
    lemma_recordable_below(entries, len, path);
    lemma_trie_branch(below(entries, path), (len - path.len()) as nat);
}

/// A path every key starts with, put above the trie below it, gives the trie of them all.
pub proof fn lemma_under(entries: Map<Seq<u8>, Seq<u8>>, len: nat, path: Seq<u8>)
    requires
        recordable(entries, len),
        !no_keys(entries),
        all_start_with(entries, path),
        path.len() <= len,
    ensures
        node_under_of(
            path,
            trie_rlp(below(entries, path), (len - path.len()) as nat),
            reference_of(trie_rlp(below(entries, path), (len - path.len()) as nat)),
        ) == Ok::<Seq<u8>, PathError>(trie_rlp(entries, len)),
{
    reveal(node_under_of);
    let inner = below(entries, path);
    let rest = (len - path.len()) as nat;
    lemma_recordable_below(entries, len, path);
    if path.len() == 0 {
        assert(path =~= Seq::empty());
        lemma_below_nothing(entries);
    } else {
        let some = choose|key: Seq<u8>| entries.contains_key(key);
        assert(entries.contains_key(some));
        lemma_below(entries, path, some);
        assert(inner.contains_key(some.skip(path.len() as int)));
        if is_single(inner) {
            let key = the_key(inner);
            assert(only_key(inner, key));
            assert(inner.contains_key(key));
            lemma_trie_leaf(inner, rest, key);
            law_leaf_round_trip(key, inner[key]);
            assert forall|other: Seq<u8>| #[trigger] entries.contains_key(other) <==> other == path
                + key by {
                if entries.contains_key(other) {
                    lemma_below(entries, path, other);
                    lemma_starts_with(other, path);
                    assert(inner.contains_key(other.skip(path.len() as int)));
                }
            }
            assert(only_key(entries, path + key));
            lemma_trie_leaf(entries, len, path + key);
        } else {
            let further = lemma_split_exists(inner, rest);
            lemma_split_above(entries, path, further);
            let whole = path + further;
            lemma_trie_extension(entries, len, whole);
            lemma_below_below(entries, path, further);
            if further.len() == 0 {
                assert(further =~= Seq::empty());
                assert(whole =~= path);
                lemma_trie_branch(inner, rest);
                law_branch_round_trip(trie_items(inner, rest));
            } else {
                lemma_trie_extension(inner, rest, further);
                let bottom = trie_rlp(below(inner, further), (rest - further.len()) as nat);
                lemma_recordable_below(inner, rest, further);
                lemma_trie_node(below(inner, further), (rest - further.len()) as nat);
                law_reference_leads_back(Map::empty(), bottom);
                law_extension_round_trip(further, reference_of(bottom));
            }
        }
    }
}

} // verus!
