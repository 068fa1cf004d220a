//! The Merkle-Patricia trie a set of entries hashes to, which is what every read and every update
//! is held against.
//!
//! Keys are nibble sequences of one length. A trie is told by the encoding of its root node alone,
//! since every node below is reached through the item its parent references it by.

use vstd::prelude::*;

use crate::encode::{branch_rlp, extension_rlp, leaf_rlp, reference_of};
use crate::nibbles::is_path;
use crate::node::empty_rlp;

verus! {

/// Whether every key is a path of `len` nibbles.
pub open spec fn keyed<V>(entries: Map<Seq<u8>, V>, len: nat) -> bool {
    forall|key: Seq<u8>| #[trigger]
        entries.contains_key(key) ==> key.len() == len && is_path(key)
}

/// Whether there is no entry at all.
pub open spec fn no_keys<V>(entries: Map<Seq<u8>, V>) -> bool {
    forall|key: Seq<u8>| !entries.contains_key(key)
}

/// Whether `key` is the one key there is.
pub open spec fn only_key<V>(entries: Map<Seq<u8>, V>, key: Seq<u8>) -> bool {
    forall|other: Seq<u8>| #[trigger] entries.contains_key(other) <==> other == key
}

/// Whether there is a single key.
pub open spec fn is_single<V>(entries: Map<Seq<u8>, V>) -> bool {
    exists|key: Seq<u8>| only_key(entries, key)
}

/// The one key there is.
pub open spec fn the_key<V>(entries: Map<Seq<u8>, V>) -> Seq<u8> {
    choose|key: Seq<u8>| only_key(entries, key)
}

/// Whether `path` is what `key` starts with.
pub open spec fn starts_with(key: Seq<u8>, path: Seq<u8>) -> bool {
    &&& path.len() <= key.len()
    &&& key.subrange(0, path.len() as int) == path
}

/// The entries whose keys start with `path`, under what follows it.
pub open spec fn below<V>(entries: Map<Seq<u8>, V>, path: Seq<u8>) -> Map<Seq<u8>, V> {
    Map::new(|key: Seq<u8>| entries.contains_key(path + key), |key: Seq<u8>| entries[path + key])
}

/// Whether every key starts with `path`.
pub open spec fn all_start_with<V>(entries: Map<Seq<u8>, V>, path: Seq<u8>) -> bool {
    forall|key: Seq<u8>| #[trigger] entries.contains_key(key) ==> starts_with(key, path)
}

/// Whether two keys are alike as far as `path` goes and part at the nibble behind it.
pub open spec fn parts(path: Seq<u8>, left: Seq<u8>, right: Seq<u8>) -> bool {
    &&& path.len() < left.len()
    &&& path.len() < right.len()
    &&& left[path.len() as int] != right[path.len() as int]
}

/// Whether `path` is the longest path every key starts with, two of them parting behind it.
pub open spec fn is_split<V>(entries: Map<Seq<u8>, V>, path: Seq<u8>) -> bool {
    &&& all_start_with(entries, path)
    &&& exists|left: Seq<u8>, right: Seq<u8>|
        entries.contains_key(left) && entries.contains_key(right) && #[trigger] parts(
            path,
            left,
            right,
        )
}

/// The longest path every key starts with.
pub open spec fn split_of<V>(entries: Map<Seq<u8>, V>) -> Seq<u8> {
    choose|path: Seq<u8>| is_split(entries, path)
}

/// The node a branch over `items` becomes with `path` nibbles above it, which is that branch under
/// an extension unless there are none.
pub open spec fn branch_under_rlp(path: Seq<u8>, items: Seq<Seq<u8>>) -> Seq<u8> {
    if path.len() == 0 {
        branch_rlp(items)
    } else {
        extension_rlp(path, reference_of(branch_rlp(items)))
    }
}

/// The root node of the trie that holds `entries`, whose keys are `len` nibbles long: the empty
/// node, the leaf of a single entry, or the branch at the nibble where the keys part, with what
/// they share above it.
#[verifier::opaque]
pub open spec fn trie_rlp(entries: Map<Seq<u8>, Seq<u8>>, len: nat) -> Seq<u8>
    decreases len, 1nat,
{
    if no_keys(entries) {
        empty_rlp()
    } else if is_single(entries) {
        leaf_rlp(the_key(entries), entries[the_key(entries)])
    } else if split_of(entries).len() < len {
        branch_under_rlp(
            split_of(entries),
            trie_items(below(entries, split_of(entries)), (len - split_of(entries).len()) as nat),
        )
    } else {
        empty_rlp()
    }
}

/// The items of the branch that holds `entries`, each the reference to the trie below its nibble.
#[verifier::opaque]
pub open spec fn trie_items(entries: Map<Seq<u8>, Seq<u8>>, len: nat) -> Seq<Seq<u8>>
    decreases len, 0nat,
{
    Seq::new(
        16,
        |nibble: int|
            if len > 0 {
                reference_of(trie_rlp(below(entries, seq![nibble as u8]), (len - 1) as nat))
            } else {
                empty_rlp()
            },
    )
}

/// `entries` with `changes` applied, each writing its key or removing it.
pub open spec fn overlay(
    entries: Map<Seq<u8>, Seq<u8>>,
    changes: Map<Seq<u8>, Option<Seq<u8>>>,
) -> Map<Seq<u8>, Seq<u8>> {
    Map::new(
        |key: Seq<u8>|
            if changes.contains_key(key) {
                changes[key] is Some
            } else {
                entries.contains_key(key)
            },
        |key: Seq<u8>|
            if changes.contains_key(key) {
                changes[key]->Some_0
            } else {
                entries[key]
            },
    )
}

/// What changes alone write.
pub open spec fn written(changes: Map<Seq<u8>, Option<Seq<u8>>>) -> Map<Seq<u8>, Seq<u8>> {
    overlay(Map::empty(), changes)
}

/// Whether any change removes its key.
pub open spec fn has_removal(changes: Map<Seq<u8>, Option<Seq<u8>>>) -> bool {
    exists|key: Seq<u8>| #[trigger] changes.contains_key(key) && changes[key] is None
}

/// The single entry `value` at `path`.
pub open spec fn entry(path: Seq<u8>, value: Seq<u8>) -> Map<Seq<u8>, Seq<u8>> {
    Map::<Seq<u8>, Seq<u8>>::empty().insert(path, value)
}

/// A key that starts with a path is that path and what follows it.
pub proof fn lemma_starts_with(key: Seq<u8>, path: Seq<u8>)
    ensures
        starts_with(key, path) ==> key == path + key.skip(path.len() as int),
        starts_with(path + key, path),
        (path + key).skip(path.len() as int) == key,
{
    if starts_with(key, path) {
        assert(key =~= path + key.skip(path.len() as int));
    }
    assert((path + key).subrange(0, path.len() as int) =~= path);
    assert((path + key).skip(path.len() as int) =~= key);
}

/// A key found below a path is found in full.
pub proof fn lemma_below<V>(entries: Map<Seq<u8>, V>, path: Seq<u8>, key: Seq<u8>)
    requires
        starts_with(key, path),
    ensures
        below(entries, path).contains_key(key.skip(path.len() as int)) == entries.contains_key(key),
        entries.contains_key(key) ==> below(entries, path)[key.skip(path.len() as int)]
            == entries[key],
{
    lemma_starts_with(key, path);
}

/// Going below two paths in turn is going below both at once.
pub proof fn lemma_below_below<V>(entries: Map<Seq<u8>, V>, path: Seq<u8>, further: Seq<u8>)
    ensures
        below(below(entries, path), further) == below(entries, path + further),
{
    assert forall|key: Seq<u8>| #[trigger] (path + (further + key)) == path + further + key by {
        assert(path + (further + key) =~= path + further + key);
    }
    assert(below(below(entries, path), further) =~= below(entries, path + further));
}

/// What is below no path at all is everything.
pub proof fn lemma_below_nothing<V>(entries: Map<Seq<u8>, V>)
    ensures
        below(entries, Seq::empty()) == entries,
{
    assert forall|key: Seq<u8>| #[trigger] (Seq::<u8>::empty() + key) == key by {
        assert(Seq::<u8>::empty() + key =~= key);
    }
    assert(below(entries, Seq::empty()) =~= entries);
}

/// The entry below a path is what is left of it, where it starts with that path.
pub proof fn lemma_below_entry(path: Seq<u8>, value: Seq<u8>, front: Seq<u8>)
    ensures
        starts_with(path, front) ==> below(entry(path, value), front) == entry(
            path.skip(front.len() as int),
            value,
        ),
        !starts_with(path, front) ==> no_keys(below(entry(path, value), front)),
{
    let inner = below(entry(path, value), front);
    assert forall|key: Seq<u8>| #[trigger] inner.contains_key(key) <==> starts_with(path, front)
        && key == path.skip(front.len() as int) by {
        lemma_starts_with(key, front);
        lemma_starts_with(path, front);
    }
    if starts_with(path, front) {
        lemma_starts_with(path, front);
        assert(inner =~= entry(path.skip(front.len() as int), value));
    }
}

/// Changes that remove nothing there is leave the entries as they are.
pub proof fn lemma_overlay_nothing(
    entries: Map<Seq<u8>, Seq<u8>>,
    changes: Map<Seq<u8>, Option<Seq<u8>>>,
)
    requires
        forall|key: Seq<u8>| #[trigger]
            changes.contains_key(key) ==> changes[key] is None && !entries.contains_key(key),
    ensures
        overlay(entries, changes) == entries,
{
    assert(overlay(entries, changes) =~= entries);
}

/// Applying changes and going below a path commute.
pub proof fn lemma_below_overlay(
    entries: Map<Seq<u8>, Seq<u8>>,
    changes: Map<Seq<u8>, Option<Seq<u8>>>,
    path: Seq<u8>,
)
    ensures
        below(overlay(entries, changes), path) == overlay(
            below(entries, path),
            below(changes, path),
        ),
{
    assert(below(overlay(entries, changes), path) =~= overlay(
        below(entries, path),
        below(changes, path),
    ));
}

/// Keys below a path are shorter by it.
pub proof fn lemma_below_keyed<V>(entries: Map<Seq<u8>, V>, path: Seq<u8>, len: nat)
    requires
        keyed(entries, len),
        path.len() <= len,
    ensures
        keyed(below(entries, path), (len - path.len()) as nat),
{
    assert forall|key: Seq<u8>| #[trigger] below(entries, path).contains_key(key) implies key.len()
        == len - path.len() && is_path(key) by {
        assert(entries.contains_key(path + key));
        assert forall|i: int| 0 <= i < key.len() implies #[trigger] key[i] < 16 by {
            assert((path + key)[path.len() + i] == key[i]);
        }
    }
}

/// There is one path at most that the keys part behind.
pub proof fn lemma_split_unique<V>(entries: Map<Seq<u8>, V>, path: Seq<u8>, other: Seq<u8>)
    requires
        is_split(entries, path),
        is_split(entries, other),
    ensures
        path == other,
{
    lemma_split_no_longer(entries, path, other);
    lemma_split_no_longer(entries, other, path);
    let (left, right) = choose|left: Seq<u8>, right: Seq<u8>|
        entries.contains_key(left) && entries.contains_key(right) && #[trigger] parts(
            path,
            left,
            right,
        );
    assert(starts_with(left, path) && starts_with(left, other));
}

/// Keys that part behind a path share no more than it.
proof fn lemma_split_no_longer<V>(entries: Map<Seq<u8>, V>, path: Seq<u8>, other: Seq<u8>)
    requires
        is_split(entries, path),
        all_start_with(entries, other),
    ensures
        other.len() <= path.len(),
{
    let (left, right) = choose|left: Seq<u8>, right: Seq<u8>|
        entries.contains_key(left) && entries.contains_key(right) && #[trigger] parts(
            path,
            left,
            right,
        );
    assert(starts_with(left, other) && starts_with(right, other));
    if other.len() > path.len() {
        let at = path.len() as int;
        assert(left.subrange(0, other.len() as int)[at] == left[at]);
        assert(right.subrange(0, other.len() as int)[at] == right[at]);
    }
}

/// Keys that part are more than one.
pub proof fn lemma_split_not_single<V>(entries: Map<Seq<u8>, V>, path: Seq<u8>)
    requires
        is_split(entries, path),
    ensures
        !no_keys(entries),
        !is_single(entries),
        split_of(entries) == path,
{
    let (left, right) = choose|left: Seq<u8>, right: Seq<u8>|
        entries.contains_key(left) && entries.contains_key(right) && #[trigger] parts(
            path,
            left,
            right,
        );
    assert(entries.contains_key(left) && entries.contains_key(right));
    assert(left != right);
    assert forall|key: Seq<u8>| !only_key(entries, key) by {
        if only_key(entries, key) {
            assert(entries.contains_key(left) <==> left == key);
            assert(entries.contains_key(right) <==> right == key);
        }
    }
    lemma_split_unique(entries, path, split_of(entries));
}

/// The trie of no entry is the empty node.
pub proof fn lemma_trie_empty(entries: Map<Seq<u8>, Seq<u8>>, len: nat)
    requires
        no_keys(entries),
    ensures
        trie_rlp(entries, len) == empty_rlp(),
{
    reveal(trie_rlp);
}

/// The trie of one entry is its leaf.
pub proof fn lemma_trie_leaf(entries: Map<Seq<u8>, Seq<u8>>, len: nat, key: Seq<u8>)
    requires
        only_key(entries, key),
    ensures
        trie_rlp(entries, len) == leaf_rlp(key, entries[key]),
{
    reveal(trie_rlp);
    assert(entries.contains_key(key));
    let other = the_key(entries);
    assert(only_key(entries, other));
    assert(entries.contains_key(other));
    assert(other == key);
}

/// The trie of entries that part is the branch where they do, with what they share above it.
pub proof fn lemma_trie_split(entries: Map<Seq<u8>, Seq<u8>>, len: nat, path: Seq<u8>)
    requires
        is_split(entries, path),
        path.len() < len,
    ensures
        trie_rlp(entries, len) == branch_under_rlp(
            path,
            trie_items(below(entries, path), (len - path.len()) as nat),
        ),
{
    reveal(trie_rlp);
    reveal(trie_items);
    lemma_split_not_single(entries, path);
}

/// Each item of a branch is the reference to the trie below its nibble.
pub proof fn lemma_trie_items(entries: Map<Seq<u8>, Seq<u8>>, len: nat)
    requires
        len > 0,
    ensures
        trie_items(entries, len).len() == 16,
        forall|nibble: u8|
            nibble < 16 ==> #[trigger] trie_items(entries, len)[nibble as int] == reference_of(
                trie_rlp(below(entries, seq![nibble]), (len - 1) as nat),
            ),
{
    reveal(trie_rlp);
    reveal(trie_items);
}

} // verus!
