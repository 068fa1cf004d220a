//! What a walk and an update of a canonical trie come out as, against a witness that may leave parts
//! of the trie out.

use vstd::prelude::*;

use crate::canonical::{
    branch_payload, law_branch_round_trip, law_extension_round_trip, law_leaf_round_trip,
    law_reference_leads_back,
};
use crate::descent::{
    absent_items, agreed_len, branch_child, branch_updated, child_at, child_of, children_run,
    children_updated, closed_branch, collapse_reaches_built, lemma_agreed_len, lemma_branch_many,
    lemma_branch_one, lemma_children_run, lemma_children_updated, lemma_extension_follows,
    lemma_extension_parts, lemma_split_extension, lemma_updated, lone_removal, parted_rlp,
    residual_child, residual_item, split_extension, updated, walked,
};
use crate::encode::{joined, leaf_rlp, lemma_branch_len, reference_of};
use crate::error::PathError;
use crate::keccak::keccak;
use crate::nibbles::{hex_prefix, is_path};
use crate::node::{empty_rlp, filled_of, only_filled, Filled, DIGEST_LEN, MAX_LEAF_VALUE};
use crate::recorded::{
    lemma_recordable_below, lemma_split_above, lemma_split_exists, lemma_trie_branch,
    lemma_trie_extension, lemma_trie_items_whole, lemma_trie_node, lemma_under, recordable,
};
use crate::stack::spliced;
use crate::trie::{
    all_start_with, below, entry, has_removal, is_single, is_split, keyed, lemma_below,
    lemma_below_below, lemma_below_keyed, lemma_below_nothing, lemma_below_overlay,
    lemma_overlay_nothing, lemma_split_not_single, lemma_starts_with, lemma_trie_empty,
    lemma_trie_items, lemma_trie_leaf, lemma_trie_split, no_keys, only_key, overlay, parts,
    starts_with, the_key, trie_items, trie_rlp, written,
};

verus! {

/// The node of the trie of `entries` at `path`.
pub open spec fn node_at_path(entries: Map<Seq<u8>, Seq<u8>>, len: nat, path: Seq<u8>) -> Seq<u8> {
    trie_rlp(below(entries, path), (len - path.len()) as nat)
}

/// Whether `path` leads to a node of the trie below its root: a branch, or a child of one.
pub open spec fn leads_to_node(entries: Map<Seq<u8>, Seq<u8>>, path: Seq<u8>) -> bool {
    &&& path.len() > 0
    &&& is_split(below(entries, path), Seq::empty()) || is_split(
        below(entries, path.drop_last()),
        Seq::empty(),
    )
}

/// Whether `path` leads to a node its parent references by hash.
pub open spec fn is_hashed(entries: Map<Seq<u8>, Seq<u8>>, len: nat, path: Seq<u8>) -> bool {
    &&& path.len() <= len
    &&& leads_to_node(entries, path)
    &&& node_at_path(entries, len, path).len() >= DIGEST_LEN
}

/// Whether the witness answers the hash of every node of the trie with that node, where it answers
/// it at all.
pub open spec fn faithful(
    nodes: Map<[u8; 32], Seq<u8>>,
    entries: Map<Seq<u8>, Seq<u8>>,
    len: nat,
) -> bool {
    forall|path: Seq<u8>| #[trigger]
        is_hashed(entries, len, path) && nodes.contains_key(
            keccak(node_at_path(entries, len, path)),
        ) ==> nodes[keccak(node_at_path(entries, len, path))] == node_at_path(entries, len, path)
}

/// The part of a trie that is asked for: the nodes along some keys, and where `beside`, the ones a
/// nibble off those too.
pub struct Reach {
    /// The keys.
    pub keys: Set<Seq<u8>>,
    /// Whether the nodes a nibble off a key are asked for.
    pub beside: bool,
}

impl Reach {
    /// What a read of one key asks for.
    pub open spec fn of_key(key: Seq<u8>) -> Self {
        Reach { keys: set![key], beside: false }
    }

    /// What applying changes asks for. Only a removal can leave a branch with one child, which is
    /// then joined with the path above it whatever key it is under.
    pub open spec fn of_changes(changes: Map<Seq<u8>, Option<Seq<u8>>>) -> Self {
        Reach { keys: changes.dom(), beside: has_removal(changes) }
    }

    /// Whether the node at `path` is asked for.
    pub open spec fn reaches(self, path: Seq<u8>) -> bool {
        exists|key: Seq<u8>| #[trigger]
            self.keys.contains(key) && (starts_with(key, path) || self.beside && path.len() > 0
                && starts_with(key, path.drop_last()))
    }

    /// Whether what this asks for below `front` is asked for in the whole.
    pub open spec fn is_within(self, whole: Reach, front: Seq<u8>) -> bool {
        &&& forall|key: Seq<u8>| #[trigger] self.keys.contains(key) ==> whole.keys.contains(front + key)
        &&& self.beside ==> whole.beside
    }
}

/// Whether the witness holds every node asked for that is referenced by hash.
pub open spec fn complete(
    nodes: Map<[u8; 32], Seq<u8>>,
    entries: Map<Seq<u8>, Seq<u8>>,
    len: nat,
    reach: Reach,
) -> bool {
    forall|path: Seq<u8>| #[trigger]
        is_hashed(entries, len, path) && reach.reaches(path) ==> nodes.contains_key(
            keccak(node_at_path(entries, len, path)),
        )
}

/// Whether `error` is that of a node of the trie that is asked for and the witness does not hold.
pub open spec fn missing(
    nodes: Map<[u8; 32], Seq<u8>>,
    entries: Map<Seq<u8>, Seq<u8>>,
    len: nat,
    reach: Reach,
    error: PathError,
) -> bool {
    exists|path: Seq<u8>| #[trigger]
        is_hashed(entries, len, path) && reach.reaches(path) && error == PathError::NodeNotResolved(
            keccak(node_at_path(entries, len, path)),
        ) && !nodes.contains_key(keccak(node_at_path(entries, len, path)))
}

/// Whether an outcome is the one expected, or the witness lacks a node that is asked for.
pub open spec fn comes_out<T>(
    nodes: Map<[u8; 32], Seq<u8>>,
    entries: Map<Seq<u8>, Seq<u8>>,
    len: nat,
    reach: Reach,
    outcome: Result<T, PathError>,
    expected: T,
) -> bool {
    match outcome {
        Ok(value) => value == expected,
        Err(error) => missing(nodes, entries, len, reach, error),
    }
}

/// A witness faithful to a trie is faithful to what is below a path of it, and a node missing there
/// is missing from the whole.
pub proof fn lemma_below_faithful(
    nodes: Map<[u8; 32], Seq<u8>>,
    entries: Map<Seq<u8>, Seq<u8>>,
    len: nat,
    front: Seq<u8>,
    inner_reach: Reach,
    reach: Reach,
)
    requires
        front.len() <= len,
        inner_reach.is_within(reach, front),
    ensures
        faithful(nodes, entries, len) ==> faithful(
            nodes,
            below(entries, front),
            (len - front.len()) as nat,
        ),
        forall|error: PathError|
            missing(nodes, below(entries, front), (len - front.len()) as nat, inner_reach, error)
                ==> #[trigger] missing(nodes, entries, len, reach, error),
{
    let inner = below(entries, front);
    let rest = (len - front.len()) as nat;
    assert forall|path: Seq<u8>| #[trigger] is_hashed(inner, rest, path) implies is_hashed(
        entries,
        len,
        front + path,
    ) && node_at_path(inner, rest, path) == node_at_path(entries, len, front + path) && (
    inner_reach.reaches(path) ==> reach.reaches(front + path)) by {
        lemma_below_below(entries, front, path);
        lemma_below_below(entries, front, path.drop_last());
        assert((front + path).drop_last() =~= front + path.drop_last());
        if inner_reach.reaches(path) {
            lemma_reaches_below(inner_reach, reach, front, path);
        }
    }
    assert forall|error: PathError| missing(
        nodes,
        inner,
        rest,
        inner_reach,
        error,
    ) implies #[trigger] missing(nodes, entries, len, reach, error) by {
        let path = choose|path: Seq<u8>| #[trigger]
            is_hashed(inner, rest, path) && inner_reach.reaches(path) && error
                == PathError::NodeNotResolved(keccak(node_at_path(inner, rest, path)))
                && !nodes.contains_key(keccak(node_at_path(inner, rest, path)));
        assert(is_hashed(entries, len, front + path));
    }
}

/// A node asked for below a path is asked for in the whole.
proof fn lemma_reaches_below(inner: Reach, whole: Reach, front: Seq<u8>, path: Seq<u8>)
    requires
        inner.is_within(whole, front),
        inner.reaches(path),
        path.len() > 0,
    ensures
        whole.reaches(front + path),
{
    let key = choose|key: Seq<u8>| #[trigger]
        inner.keys.contains(key) && (starts_with(key, path) || inner.beside && path.len() > 0
            && starts_with(key, path.drop_last()));
    assert(whole.keys.contains(front + key));
    let (below_path, above) = if starts_with(key, path) {
        (path, front + path)
    } else {
        (path.drop_last(), (front + path).drop_last())
    };
    assert(above =~= front + below_path);
    assert((front + key).subrange(0, above.len() as int) =~= front + key.subrange(
        0,
        below_path.len() as int,
    ));
}

/// What a change below a path asks for is asked for in the whole, and with a change there at all the
/// node at the path is.
proof fn lemma_changes_within(changes: Map<Seq<u8>, Option<Seq<u8>>>, front: Seq<u8>)
    ensures
        Reach::of_changes(below(changes, front)).is_within(Reach::of_changes(changes), front),
        !no_keys(below(changes, front)) ==> Reach::of_changes(changes).reaches(front),
{
    let inner = below(changes, front);
    assert forall|key: Seq<u8>| #[trigger] inner.contains_key(key) implies changes.contains_key(
        front + key,
    ) && changes[front + key] == inner[key] && starts_with(front + key, front) by {
        assert((front + key).subrange(0, front.len() as int) =~= front);
    }
    if !no_keys(inner) {
        let key = choose|key: Seq<u8>| inner.contains_key(key);
        assert(inner.contains_key(key));
        assert(Reach::of_changes(changes).keys.contains(front + key));
    }
    if has_removal(inner) {
        let key = choose|key: Seq<u8>| #[trigger] inner.contains_key(key) && inner[key] is None;
        assert(changes.contains_key(front + key));
    }
}

/// A removal asks for every child of the branch it starts at.
proof fn lemma_removal_reaches(changes: Map<Seq<u8>, Option<Seq<u8>>>)
    requires
        has_removal(changes),
    ensures
        forall|n: u8| Reach::of_changes(changes).reaches(#[trigger] seq![n]),
{
    let reach = Reach::of_changes(changes);
    let key = choose|key: Seq<u8>| #[trigger] changes.contains_key(key) && changes[key] is None;
    assert(reach.keys.contains(key));
    assert forall|n: u8| reach.reaches(#[trigger] seq![n]) by {
        assert(seq![n].drop_last() =~= Seq::empty());
        assert(key.subrange(0, 0) =~= Seq::empty());
    }
}

/// The item a node of the trie is referenced through leads back to it, or the witness lacks it.
pub proof fn lemma_child_read(
    nodes: Map<[u8; 32], Seq<u8>>,
    entries: Map<Seq<u8>, Seq<u8>>,
    len: nat,
    path: Seq<u8>,
    reach: Reach,
)
    requires
        recordable(entries, len),
        faithful(nodes, entries, len),
        reach.reaches(path),
        path.len() <= len,
        no_keys(below(entries, path)) || leads_to_node(entries, path),
    ensures
        comes_out(
            nodes,
            entries,
            len,
            reach,
            child_of(nodes, reference_of(node_at_path(entries, len, path))),
            node_at_path(entries, len, path),
        ),
{
    lemma_recordable_below(entries, len, path);
    lemma_trie_node(below(entries, path), (len - path.len()) as nat);
    law_reference_leads_back(nodes, node_at_path(entries, len, path));
    if node_at_path(entries, len, path).len() >= DIGEST_LEN {
        assert(empty_rlp().len() == 1);
        assert(is_hashed(entries, len, path));
    }
}

/// What the rest of a key asks for below a path the key starts with is asked for in the whole, and so
/// is the node at the path.
proof fn lemma_key_within(key: Seq<u8>, front: Seq<u8>)
    requires
        starts_with(key, front),
    ensures
        Reach::of_key(key.skip(front.len() as int)).is_within(Reach::of_key(key), front),
        Reach::of_key(key).reaches(front),
{
    lemma_starts_with(key, front);
    assert(Reach::of_key(key).keys.contains(key));
    assert(front + key.skip(front.len() as int) =~= key);
}

/// A walk of the trie finds what it holds, or stops at a node along the key the witness lacks.
pub proof fn law_walk(
    nodes: Map<[u8; 32], Seq<u8>>,
    entries: Map<Seq<u8>, Seq<u8>>,
    len: nat,
    key: Seq<u8>,
)
    requires
        recordable(entries, len),
        faithful(nodes, entries, len),
        key.len() == len,
        is_path(key),
    ensures
        comes_out(
            nodes,
            entries,
            len,
            Reach::of_key(key),
            walked(nodes, trie_rlp(entries, len), key),
            if entries.contains_key(key) {
                Some(entries[key])
            } else {
                None
            },
        ),
    decreases len,
{
    lemma_trie_node(entries, len);
    if no_keys(entries) {
        assert(!entries.contains_key(key));
    } else if is_single(entries) {
        let held = the_key(entries);
        assert(only_key(entries, held));
        assert(entries.contains_key(held));
        lemma_trie_leaf(entries, len, held);
        law_leaf_round_trip(held, entries[held]);
    } else {
        let path = lemma_split_exists(entries, len);
        if path.len() == 0 {
            assert(path =~= Seq::empty());
            lemma_trie_branch(entries, len);
            let items = trie_items(entries, len);
            law_branch_round_trip(items);
            lemma_trie_items(entries, len);
            let nibble = key[0];
            let front = seq![nibble];
            assert(items[nibble as int] == reference_of(node_at_path(entries, len, front)));
            assert(branch_child(nodes, branch_payload(items), nibble) == child_of(
                nodes,
                items[nibble as int],
            ));
            assert(front.drop_last() =~= Seq::empty());
            lemma_below_nothing(entries);
            assert(key.subrange(0, 1) =~= front);
            lemma_key_within(key, front);
            lemma_child_read(nodes, entries, len, front, Reach::of_key(key));
            lemma_recordable_below(entries, len, front);
            lemma_below_faithful(
                nodes,
                entries,
                len,
                front,
                Reach::of_key(key.skip(1)),
                Reach::of_key(key),
            );
            lemma_below(entries, front, key);
            law_walk(nodes, below(entries, front), (len - 1) as nat, key.skip(1));
        } else {
            lemma_trie_extension(entries, len, path);
            let item = reference_of(node_at_path(entries, len, path));
            lemma_recordable_below(entries, len, path);
            lemma_trie_node(below(entries, path), (len - path.len()) as nat);
            law_reference_leads_back(nodes, node_at_path(entries, len, path));
            law_extension_round_trip(path, item);
            if starts_with(key, path) {
                lemma_key_within(key, path);
                lemma_child_read(nodes, entries, len, path, Reach::of_key(key));
                lemma_below_faithful(
                    nodes,
                    entries,
                    len,
                    path,
                    Reach::of_key(key.skip(path.len() as int)),
                    Reach::of_key(key),
                );
                lemma_below(entries, path, key);
                law_walk(
                    nodes,
                    below(entries, path),
                    (len - path.len()) as nat,
                    key.skip(path.len() as int),
                );
            } else {
                assert(!entries.contains_key(key));
            }
        }
    }
}

/// Whether changes are ones a trie of keys `len` nibbles long can take.
pub open spec fn applicable(changes: Map<Seq<u8>, Option<Seq<u8>>>, len: nat) -> bool {
    &&& keyed(changes, len)
    &&& forall|key: Seq<u8>| #[trigger]
        changes.contains_key(key) ==> (changes[key] matches Some(value) ==> value.len()
            <= MAX_LEAF_VALUE)
}

/// Entries are recordable once changes are applied to them, and changes below a path are applicable
/// there.
proof fn lemma_applicable(
    entries: Map<Seq<u8>, Seq<u8>>,
    changes: Map<Seq<u8>, Option<Seq<u8>>>,
    len: nat,
    path: Seq<u8>,
)
    requires
        recordable(entries, len),
        applicable(changes, len),
        path.len() <= len,
    ensures
        recordable(overlay(entries, changes), len),
        applicable(below(changes, path), (len - path.len()) as nat),
        below(overlay(entries, changes), path) == overlay(
            below(entries, path),
            below(changes, path),
        ),
{
    let after = overlay(entries, changes);
    assert forall|key: Seq<u8>| #[trigger] after.contains_key(key) implies key.len() == len
        && is_path(key) && after[key].len() <= MAX_LEAF_VALUE by {
        if changes.contains_key(key) {
            assert(changes[key] is Some);
        } else {
            assert(entries.contains_key(key));
        }
    }
    lemma_below_keyed(changes, path, len);
    assert forall|key: Seq<u8>| #[trigger] below(changes, path).contains_key(key) implies (below(
        changes,
        path,
    )[key] matches Some(value) ==> value.len() <= MAX_LEAF_VALUE) by {
        assert(changes.contains_key(path + key));
    }
    lemma_below_overlay(entries, changes, path);
}

/// Entries that part somewhere still do once changes that stay below are written to them.
proof fn lemma_still_parts(
    entries: Map<Seq<u8>, Seq<u8>>,
    changes: Map<Seq<u8>, Option<Seq<u8>>>,
    path: Seq<u8>,
)
    requires
        is_split(entries, path),
        all_start_with(changes, path),
        !has_removal(changes),
    ensures
        is_split(overlay(entries, changes), path),
{
    let after = overlay(entries, changes);
    let (l, r) = choose|left: Seq<u8>, right: Seq<u8>|
        entries.contains_key(left) && entries.contains_key(right) && #[trigger] parts(
            path,
            left,
            right,
        );
    assert forall|key: Seq<u8>| entries.contains_key(key) implies #[trigger] after.contains_key(
        key,
    ) by {
        if changes.contains_key(key) {
            assert(changes[key] is Some);
        }
    }
    assert(after.contains_key(l) && after.contains_key(r));
    assert(parts(path, l, r));
    lemma_overlay_starts(entries, changes, path);
}

/// Entries and changes that start with a path start with it together.
proof fn lemma_overlay_starts(
    entries: Map<Seq<u8>, Seq<u8>>,
    changes: Map<Seq<u8>, Option<Seq<u8>>>,
    path: Seq<u8>,
)
    requires
        all_start_with(entries, path),
        all_start_with(changes, path),
    ensures
        all_start_with(overlay(entries, changes), path),
{
    let after = overlay(entries, changes);
    assert forall|key: Seq<u8>| #[trigger] after.contains_key(key) implies starts_with(
        key,
        path,
    ) by {
        if changes.contains_key(key) {
            assert(starts_with(key, path));
        } else {
            assert(entries.contains_key(key));
        }
    }
}

/// Entries below a path every key starts with are none only where there are none at all.
proof fn lemma_none_below(entries: Map<Seq<u8>, Seq<u8>>, path: Seq<u8>)
    requires
        all_start_with(entries, path),
    ensures
        no_keys(below(entries, path)) <==> no_keys(entries),
{
    if !no_keys(entries) {
        let key = choose|key: Seq<u8>| entries.contains_key(key);
        assert(entries.contains_key(key));
        lemma_below(entries, path, key);
        assert(below(entries, path).contains_key(key.skip(path.len() as int)));
    }
    if !no_keys(below(entries, path)) {
        let key = choose|key: Seq<u8>| below(entries, path).contains_key(key);
        assert(entries.contains_key(path + key));
    }
}

/// What is left of an extension split part way along its path is the one child of the branch that
/// replaces it.
proof fn lemma_residual(entries: Map<Seq<u8>, Seq<u8>>, len: nat, path: Seq<u8>, shared: nat)
    requires
        recordable(entries, len),
        is_split(entries, path),
        shared < path.len(),
    ensures
        ({
            let front = path.subrange(0, shared as int);
            let inner = below(entries, front);
            let child = reference_of(node_at_path(entries, len, path));
            let nibble = path[shared as int];
            &&& path.len() < len
            &&& is_path(path)
            &&& all_start_with(entries, front)
            &&& all_start_with(inner, seq![nibble])
            &&& !no_keys(inner)
            &&& trie_items(inner, (len - shared) as nat) == absent_items().update(
                nibble as int,
                residual_item(path, shared, child),
            )
            &&& match residual_child(path, shared, child) {
                Some((at, node_rlp)) => at == nibble && node_rlp == trie_rlp(
                    below(inner, seq![nibble]),
                    (len - shared - 1) as nat,
                ),
                None => is_split(below(inner, seq![nibble]), Seq::empty()),
            }
        }),
{
    let front = path.subrange(0, shared as int);
    let inner = below(entries, front);
    let child = reference_of(node_at_path(entries, len, path));
    let nibble = path[shared as int];
    let through = path.subrange(0, shared as int + 1);
    let tail = path.skip(shared as int + 1);
    lemma_trie_extension(entries, len, path);
    assert(path[shared as int] < 16);
    assert forall|key: Seq<u8>| #[trigger] entries.contains_key(key) implies starts_with(key, front)
        && starts_with(key, through) by {
        assert(starts_with(key, path));
        assert(key.subrange(0, shared as int) =~= key.subrange(0, path.len() as int).subrange(
            0,
            shared as int,
        ));
        assert(key.subrange(0, shared as int + 1) =~= key.subrange(
            0,
            path.len() as int,
        ).subrange(0, shared as int + 1));
    }
    assert(through =~= front + seq![nibble]);
    lemma_below_below(entries, front, seq![nibble]);
    let bottom = below(inner, seq![nibble]);
    assert forall|key: Seq<u8>| #[trigger] inner.contains_key(key) implies starts_with(
        key,
        seq![nibble],
    ) by {
        assert(entries.contains_key(front + key));
        assert(starts_with(front + key, through));
        assert(key[0] == (front + key).subrange(0, shared as int + 1)[shared as int]);
        assert(key.subrange(0, 1) =~= seq![nibble]);
    }
    lemma_none_below(entries, front);
    assert(!no_keys(entries)) by {
        lemma_split_not_single(entries, path);
    }
    assert(path =~= through + tail);
    lemma_split_above(entries, through, tail);
    lemma_below_below(entries, through, tail);
    lemma_recordable_below(entries, len, through);
    let rest = (len - shared - 1) as nat;
    if tail.len() > 0 {
        lemma_trie_extension(bottom, rest, tail);
    } else {
        assert(tail =~= Seq::empty());
        assert(through =~= path);
    }
    lemma_trie_items(inner, (len - shared) as nat);
    let items = absent_items().update(nibble as int, residual_item(path, shared, child));
    assert forall|n: u8| n < 16 implies #[trigger] trie_items(
        inner,
        (len - shared) as nat,
    )[n as int] == items[n as int] by {
        if n != nibble {
            assert forall|key: Seq<u8>| !below(inner, seq![n]).contains_key(key) by {
                if below(inner, seq![n]).contains_key(key) {
                    assert(inner.contains_key(seq![n] + key));
                    assert(starts_with(seq![n] + key, seq![nibble]));
                    assert((seq![n] + key).subrange(0, 1)[0] == n);
                }
            }
            lemma_trie_empty(below(inner, seq![n]), rest);
            assert(reference_of(empty_rlp()) == empty_rlp());
        }
    }
    assert forall|i: int| 0 <= i < 16 implies trie_items(inner, (len - shared) as nat)[i]
        == #[trigger] items[i] by {
        assert(trie_items(inner, (len - shared) as nat)[i as u8 as int] == items[i as u8 as int]);
    }
    assert(trie_items(inner, (len - shared) as nat) =~= items);
}

/// A branch whose items are those of the entries it is left with closes as their trie, or the one
/// child left is a node the witness lacks.
proof fn lemma_closes(
    nodes: Map<[u8; 32], Seq<u8>>,
    entries: Map<Seq<u8>, Seq<u8>>,
    after: Map<Seq<u8>, Seq<u8>>,
    len: nat,
    prebuilt: Option<(u8, Seq<u8>)>,
    reach: Reach,
)
    requires
        len > 0,
        recordable(entries, len),
        recordable(after, len),
        faithful(nodes, entries, len),
        forall|n: u8| reach.reaches(#[trigger] seq![n]),
        forall|n: u8|
            #![trigger below(after, seq![n])]
            only_filled(trie_items(after, len), n) ==> match prebuilt {
                Some((at, node_rlp)) => if at == n {
                    node_rlp == trie_rlp(below(after, seq![n]), (len - 1) as nat)
                } else {
                    below(after, seq![n]) == below(entries, seq![n]) && leads_to_node(
                        entries,
                        seq![n],
                    )
                },
                None => below(after, seq![n]) == below(entries, seq![n]) && leads_to_node(
                    entries,
                    seq![n],
                ),
            },
    ensures
        comes_out(
            nodes,
            entries,
            len,
            reach,
            closed_branch(nodes, trie_items(after, len), prebuilt),
            trie_rlp(after, len),
        ),
{
    reveal(closed_branch);
    let items = trie_items(after, len);
    lemma_trie_items(after, len);
    lemma_trie_items_whole(after, len);
    match filled_of(items) {
        Filled::Empty => {
            assert forall|key: Seq<u8>| !after.contains_key(key) by {
                if after.contains_key(key) {
                    lemma_nibble_of(after, len, key);
                    assert(items[key[0] as int] == empty_rlp());
                }
            }
            lemma_trie_empty(after, len);
        },
        Filled::One(_) => {
            let n = choose|n: u8| only_filled(items, n);
            assert(only_filled(items, n));
            let inner = below(after, seq![n]);
            assert(items[n as int] != empty_rlp());
            assert(!no_keys(inner));
            assert forall|key: Seq<u8>| #[trigger] after.contains_key(key) implies starts_with(
                key,
                seq![n],
            ) by {
                lemma_nibble_of(after, len, key);
                if key[0] != n {
                    assert(items[key[0] as int] == empty_rlp());
                }
                assert(key.subrange(0, 1) =~= seq![n]);
            }
            lemma_none_below(after, seq![n]);
            lemma_under(after, len, seq![n]);
            let held = prebuilt is Some && prebuilt->Some_0.0 == n;
            if !held {
                lemma_child_read(nodes, entries, len, seq![n], reach);
            }
        },
        Filled::Many => {
            let one = choose|i: int| 0 <= i < 16 && #[trigger] items[i] != empty_rlp();
            assert(0 <= one < 16 && items[one] != empty_rlp());
            let n = one as u8;
            assert(items[n as int] != empty_rlp());
            assert(!only_filled(items, n));
            let two = choose|i: int| 0 <= i < 16 && i != n && #[trigger] items[i] != empty_rlp();
            assert(0 <= two < 16 && two != n && items[two] != empty_rlp());
            let m = two as u8;
            assert(items[m as int] != empty_rlp());
            let (a, b) = (below(after, seq![n]), below(after, seq![m]));
            let left = choose|key: Seq<u8>| a.contains_key(key);
            let right = choose|key: Seq<u8>| b.contains_key(key);
            assert(after.contains_key(seq![n] + left) && after.contains_key(seq![m] + right));
            assert((seq![n] + left)[0] == n && (seq![m] + right)[0] == m);
            assert(parts(Seq::empty(), seq![n] + left, seq![m] + right));
            lemma_all_start_with_nothing(after);
            lemma_trie_branch(after, len);
        },
    }
}

/// Every key starts with nothing.
proof fn lemma_all_start_with_nothing<V>(entries: Map<Seq<u8>, V>)
    ensures
        all_start_with(entries, Seq::empty()),
{
    assert forall|key: Seq<u8>| #[trigger] entries.contains_key(key) implies starts_with(
        key,
        Seq::empty(),
    ) by {
        assert(key.subrange(0, 0) =~= Seq::empty());
    }
}

/// A key is found below its first nibble.
proof fn lemma_nibble_of<V>(entries: Map<Seq<u8>, V>, len: nat, key: Seq<u8>)
    requires
        keyed(entries, len),
        len > 0,
        entries.contains_key(key),
    ensures
        key[0] < 16,
        starts_with(key, seq![key[0]]),
        below(entries, seq![key[0]]).contains_key(key.skip(1)),
        !no_keys(below(entries, seq![key[0]])),
{
    assert(key.subrange(0, 1) =~= seq![key[0]]);
    lemma_below(entries, seq![key[0]], key);
}

/// Whether a branch over the items of `entries` can have its children resolved: one child at most
/// is at hand, and it is the one the entries have there.
spec fn is_branch_of(
    entries: Map<Seq<u8>, Seq<u8>>,
    len: nat,
    prebuilt: Option<(u8, Seq<u8>)>,
) -> bool {
    &&& prebuilt matches Some((n, node_rlp)) ==> n < 16 && node_rlp == trie_rlp(
        below(entries, seq![n]),
        (len - 1) as nat,
    )
    &&& forall|n: u8|
        n < 16 ==> (prebuilt is Some && prebuilt->Some_0.0 == n) || no_keys(
            #[trigger] below(entries, seq![n]),
        ) || leads_to_node(entries, seq![n])
}

/// The items of a branch, those short of `count` once changes are applied and the rest before.
spec fn partly(before: Seq<Seq<u8>>, after: Seq<Seq<u8>>, count: nat) -> Seq<Seq<u8>> {
    Seq::new(
        16,
        |n: int|
            if n < count {
                after[n]
            } else {
                before[n]
            },
    )
}

/// The child a collapse could read is the one the entries are left with, where any is kept.
spec fn keeps_built(
    items: Seq<Seq<u8>>,
    after: Map<Seq<u8>, Seq<u8>>,
    changes: Map<Seq<u8>, Option<Seq<u8>>>,
    len: nat,
    built: Option<(u8, Seq<u8>)>,
    count: nat,
) -> bool {
    match built {
        Some((n, node_rlp)) => {
            &&& n < count
            &&& node_rlp == trie_rlp(below(after, seq![n]), (len - 1) as nat)
            &&& node_rlp != empty_rlp()
        },
        None => collapse_reaches_built(items, changes) ==> forall|n: u8|
            n < count && !no_keys(below(changes, seq![n])) ==> no_keys(
                #[trigger] below(after, seq![n]),
            ),
    }
}

/// A branch frame rebuilds the items of its first nibbles, or stops at a node the witness lacks.
proof fn lemma_runs(
    nodes: Map<[u8; 32], Seq<u8>>,
    entries: Map<Seq<u8>, Seq<u8>>,
    changes: Map<Seq<u8>, Option<Seq<u8>>>,
    len: nat,
    prebuilt: Option<(u8, Seq<u8>)>,
    count: nat,
)
    requires
        len > 0,
        count <= 16,
        recordable(entries, len),
        applicable(changes, len),
        faithful(nodes, entries, len),
        is_branch_of(entries, len, prebuilt),
    ensures
        ({
            let after = overlay(entries, changes);
            let items = trie_items(entries, len);
            match children_run(nodes, items, changes, len, prebuilt, count) {
                Err(error) => missing(
                    nodes,
                    entries,
                    len,
                    Reach::of_changes(changes),
                    error,
                ),
                Ok((rebuilt, built)) => {
                    &&& rebuilt == partly(items, trie_items(after, len), count)
                    &&& keeps_built(items, after, changes, len, built, count)
                },
            }
        }),
    decreases len, 0nat, count,
{
    let after = overlay(entries, changes);
    let items = trie_items(entries, len);
    let after_items = trie_items(after, len);
    lemma_trie_items(entries, len);
    lemma_trie_items(after, len);
    lemma_applicable(entries, changes, len, Seq::empty());
    if count == 0 {
        lemma_children_run(nodes, items, changes, len, prebuilt, 0);
        assert(partly(items, after_items, 0) =~= items);
    } else {
        let n = (count - 1) as u8;
        let front = seq![n];
        let inner = below(entries, front);
        let below_changes = below(changes, front);
        let rest = (len - 1) as nat;
        lemma_runs(nodes, entries, changes, len, prebuilt, (count - 1) as nat);
        lemma_children_run(nodes, items, changes, len, prebuilt, n);
        lemma_applicable(entries, changes, len, front);
        lemma_recordable_below(entries, len, front);
        lemma_changes_within(changes, front);
        lemma_below_faithful(
            nodes,
            entries,
            len,
            front,
            Reach::of_changes(below(changes, front)),
            Reach::of_changes(changes),
        );
        assert(items[n as int] == reference_of(node_at_path(entries, len, front)));
        assert(after_items[n as int] == reference_of(trie_rlp(below(after, front), rest)));
        let before = partly(items, after_items, (count - 1) as nat);
        if no_keys(below_changes) {
            lemma_overlay_nothing(inner, below_changes);
            assert(partly(items, after_items, count) =~= before);
        } else {
            let held = prebuilt is Some && prebuilt->Some_0.0 == n;
            if !held {
                assert(no_keys(inner) || leads_to_node(entries, front));
                lemma_child_read(nodes, entries, len, front, Reach::of_changes(changes));
            }
            let child = child_at(nodes, items, prebuilt, n);
            assert(comes_out(nodes, entries, len, Reach::of_changes(changes), child, node_at_path(entries, len, front)));
            if child is Ok {
                law_update(nodes, inner, below_changes, rest);
                let outcome = updated(nodes, trie_rlp(inner, rest), below_changes, rest);
                if outcome is Ok {
                    lemma_recordable_below(after, len, front);
                    lemma_trie_node(below(after, front), rest);
                    assert(partly(items, after_items, count) =~= before.update(
                        n as int,
                        after_items[n as int],
                    ));
                } else {
                    assert(missing(nodes, entries, len, Reach::of_changes(changes), outcome->Err_0));
                }
            }
        }
    }
}

/// A branch frame comes to the trie the entries are left with, or stops at a node the witness
/// lacks.
proof fn lemma_branch_comes_out(
    nodes: Map<[u8; 32], Seq<u8>>,
    entries: Map<Seq<u8>, Seq<u8>>,
    changes: Map<Seq<u8>, Option<Seq<u8>>>,
    len: nat,
    prebuilt: Option<(u8, Seq<u8>)>,
)
    requires
        len > 0,
        recordable(entries, len),
        applicable(changes, len),
        faithful(nodes, entries, len),
        is_branch_of(entries, len, prebuilt),
        !has_removal(changes) ==> is_split(overlay(entries, changes), Seq::empty()),
    ensures
        comes_out(
            nodes,
            entries,
            len,
            Reach::of_changes(changes),
            children_updated(nodes, trie_items(entries, len), changes, len, prebuilt),
            trie_rlp(overlay(entries, changes), len),
        ),
    decreases len, 1nat, 0nat,
{
    let after = overlay(entries, changes);
    let items = trie_items(entries, len);
    let after_items = trie_items(after, len);
    lemma_runs(nodes, entries, changes, len, prebuilt, 16);
    lemma_children_updated(nodes, items, changes, len, prebuilt);
    lemma_applicable(entries, changes, len, Seq::empty());
    match children_run(nodes, items, changes, len, prebuilt, 16) {
        Err(_) => {},
        Ok((rebuilt, built)) => {
            lemma_trie_items(after, len);
            assert(rebuilt =~= after_items);
            if has_removal(changes) {
                let last = if built is Some { built } else { prebuilt };
                lemma_last_child(entries, changes, len, prebuilt, built);
                lemma_removal_reaches(changes);
                lemma_closes(nodes, entries, after, len, last, Reach::of_changes(changes));
            } else {
                lemma_trie_branch(after, len);
            }
        },
    }
}

/// The one child a collapse leaves is at hand where the changes reached it or it was never in the
/// witness, and otherwise stands as the witness had it.
proof fn lemma_last_child(
    entries: Map<Seq<u8>, Seq<u8>>,
    changes: Map<Seq<u8>, Option<Seq<u8>>>,
    len: nat,
    prebuilt: Option<(u8, Seq<u8>)>,
    built: Option<(u8, Seq<u8>)>,
)
    requires
        len > 0,
        recordable(entries, len),
        applicable(changes, len),
        is_branch_of(entries, len, prebuilt),
        has_removal(changes),
        keeps_built(
            trie_items(entries, len),
            overlay(entries, changes),
            changes,
            len,
            built,
            16,
        ),
    ensures
        forall|n: u8|
            #![trigger below(overlay(entries, changes), seq![n])]
            only_filled(trie_items(overlay(entries, changes), len), n) ==> match if built is Some {
                built
            } else {
                prebuilt
            } {
                Some((at, node_rlp)) => if at == n {
                    node_rlp == trie_rlp(
                        below(overlay(entries, changes), seq![n]),
                        (len - 1) as nat,
                    )
                } else {
                    below(overlay(entries, changes), seq![n]) == below(entries, seq![n])
                        && leads_to_node(entries, seq![n])
                },
                None => below(overlay(entries, changes), seq![n]) == below(entries, seq![n])
                    && leads_to_node(entries, seq![n]),
            },
{
    let after = overlay(entries, changes);
    let items = trie_items(entries, len);
    let after_items = trie_items(after, len);
    let last = if built is Some { built } else { prebuilt };
    lemma_applicable(entries, changes, len, Seq::empty());
    lemma_trie_items(entries, len);
    lemma_trie_items_whole(entries, len);
    lemma_trie_items(after, len);
    lemma_trie_items_whole(after, len);
    assert forall|n: u8|
        #![trigger below(after, seq![n])]
        only_filled(after_items, n) implies match last {
        Some((at, node_rlp)) => if at == n {
            node_rlp == trie_rlp(below(after, seq![n]), (len - 1) as nat)
        } else {
            below(after, seq![n]) == below(entries, seq![n]) && leads_to_node(entries, seq![n])
        },
        None => below(after, seq![n]) == below(entries, seq![n]) && leads_to_node(
            entries,
            seq![n],
        ),
    } by {
        let touched = !no_keys(below(changes, seq![n]));
        assert(after_items[n as int] != empty_rlp());
        assert(!no_keys(below(after, seq![n])));
        if built is Some {
            let at = built->Some_0.0;
            lemma_recordable_below(after, len, seq![at]);
            lemma_trie_node(below(after, seq![at]), (len - 1) as nat);
            assert(after_items[at as int] != empty_rlp());
            assert(at == n);
        } else {
            assert forall|m: u8| m < 16 && no_keys(#[trigger] below(changes, seq![m])) implies below(
                after,
                seq![m],
            ) == below(entries, seq![m]) by {
                lemma_below_overlay(entries, changes, seq![m]);
                lemma_overlay_nothing(below(entries, seq![m]), below(changes, seq![m]));
            }
            if touched {
                assert forall|m: u8| m < 16 && no_keys(#[trigger] below(changes, seq![m])) implies items[m as int]
                    == empty_rlp() by {
                    assert(m != n);
                    assert(after_items[m as int] == empty_rlp());
                    assert(no_keys(below(after, seq![m])));
                }
                assert(collapse_reaches_built(items, changes));
                assert(no_keys(below(after, seq![n])));
            }
            assert(!touched);
            assert(below(after, seq![n]) == below(entries, seq![n]));
        }
    }
}

/// Applying changes to a trie gives the trie of its entries with those changes made, or stops at a
/// node the witness lacks.
pub proof fn law_update(
    nodes: Map<[u8; 32], Seq<u8>>,
    entries: Map<Seq<u8>, Seq<u8>>,
    changes: Map<Seq<u8>, Option<Seq<u8>>>,
    len: nat,
)
    requires
        recordable(entries, len),
        applicable(changes, len),
        faithful(nodes, entries, len),
        !no_keys(changes),
    ensures
        comes_out(
            nodes,
            entries,
            len,
            Reach::of_changes(changes),
            updated(nodes, trie_rlp(entries, len), changes, len),
            trie_rlp(overlay(entries, changes), len),
        ),
    decreases len, 4nat, 0nat,
{
    let after = overlay(entries, changes);
    let root = trie_rlp(entries, len);
    lemma_trie_node(entries, len);
    lemma_updated(nodes, root, changes, len);
    if no_keys(entries) {
        assert(overlay(entries, changes) =~= written(changes));
    } else if is_single(entries) {
        let key = the_key(entries);
        assert(only_key(entries, key));
        assert(entries.contains_key(key));
        lemma_trie_leaf(entries, len, key);
        law_leaf_round_trip(key, entries[key]);
        assert(entries =~= entry(key, entries[key]));
        if lone_removal(changes) && the_key(changes) != key {
            lemma_lone_removal(entries, changes);
        }
    } else {
        let path = lemma_split_exists(entries, len);
        if path.len() == 0 {
            assert(path =~= Seq::empty());
            lemma_update_branch(nodes, entries, changes, len);
        } else {
            lemma_update_extension(nodes, entries, changes, len, path);
        }
    }
}

/// Removing one key the entries do not hold leaves them as they are.
proof fn lemma_lone_removal(
    entries: Map<Seq<u8>, Seq<u8>>,
    changes: Map<Seq<u8>, Option<Seq<u8>>>,
)
    requires
        lone_removal(changes),
        !entries.contains_key(the_key(changes)),
    ensures
        overlay(entries, changes) == entries,
{
    let key = the_key(changes);
    assert(only_key(changes, key));
    assert forall|other: Seq<u8>| #[trigger] changes.contains_key(other) implies changes[other] is None
        && !entries.contains_key(other) by {
        assert(other == key);
    }
    lemma_overlay_nothing(entries, changes);
}

/// An update of a branch.
proof fn lemma_update_branch(
    nodes: Map<[u8; 32], Seq<u8>>,
    entries: Map<Seq<u8>, Seq<u8>>,
    changes: Map<Seq<u8>, Option<Seq<u8>>>,
    len: nat,
)
    requires
        recordable(entries, len),
        applicable(changes, len),
        faithful(nodes, entries, len),
        !no_keys(changes),
        is_split(entries, Seq::empty()),
    ensures
        comes_out(
            nodes,
            entries,
            len,
            Reach::of_changes(changes),
            updated(nodes, trie_rlp(entries, len), changes, len),
            trie_rlp(overlay(entries, changes), len),
        ),
    decreases len, 3nat, 0nat,
{
    let after = overlay(entries, changes);
    let items = trie_items(entries, len);
    let payload = branch_payload(items);
    lemma_trie_branch(entries, len);
    law_branch_round_trip(items);
    lemma_trie_node(entries, len);
    lemma_split_not_single(entries, Seq::empty());
    lemma_updated(nodes, trie_rlp(entries, len), changes, len);
    lemma_below_nothing(entries);
    lemma_all_start_with_nothing(changes);
    assert forall|n: u8| n < 16 implies leads_to_node(entries, #[trigger] seq![n]) by {
        assert(seq![n].drop_last() =~= Seq::empty());
    }
    if !has_removal(changes) {
        lemma_still_parts(entries, changes, Seq::empty());
    }
    if !is_single(changes) {
        lemma_branch_many(nodes, payload, changes, len);
        lemma_branch_comes_out(nodes, entries, changes, len, None);
    } else {
        lemma_branch_one(nodes, payload, changes, len);
        lemma_update_branch_one(nodes, entries, changes, len);
    }
}

/// An update of a branch one change reaches.
proof fn lemma_update_branch_one(
    nodes: Map<[u8; 32], Seq<u8>>,
    entries: Map<Seq<u8>, Seq<u8>>,
    changes: Map<Seq<u8>, Option<Seq<u8>>>,
    len: nat,
)
    requires
        recordable(entries, len),
        applicable(changes, len),
        faithful(nodes, entries, len),
        is_single(changes),
        is_split(entries, Seq::empty()),
        !has_removal(changes) ==> is_split(overlay(entries, changes), Seq::empty()),
        forall|n: u8| n < 16 ==> leads_to_node(entries, #[trigger] seq![n]),
    ensures
        comes_out(
            nodes,
            entries,
            len,
            Reach::of_changes(changes),
            branch_updated(nodes, branch_payload(trie_items(entries, len)), changes, len),
            trie_rlp(overlay(entries, changes), len),
        ),
    decreases len, 2nat, 0nat,
{
    let after = overlay(entries, changes);
    let items = trie_items(entries, len);
    let after_items = trie_items(after, len);
    let payload = branch_payload(items);
    let rest = (len - 1) as nat;
    let key = the_key(changes);
    lemma_trie_branch(entries, len);
    law_branch_round_trip(items);
    lemma_branch_one(nodes, payload, changes, len);
    assert(only_key(changes, key));
    assert(changes.contains_key(key));
    lemma_nibble_of(changes, len, key);
    let n = key[0];
    let front = seq![n];
    let inner = below(entries, front);
    let below_changes = below(changes, front);
    lemma_trie_items(entries, len);
    lemma_trie_items(after, len);
    lemma_applicable(entries, changes, len, front);
    lemma_recordable_below(entries, len, front);
    lemma_changes_within(changes, front);
    lemma_below_faithful(
        nodes,
        entries,
        len,
        front,
        Reach::of_changes(below(changes, front)),
        Reach::of_changes(changes),
    );
    assert(leads_to_node(entries, front));
    lemma_child_read(nodes, entries, len, front, Reach::of_changes(changes));
    assert(items[n as int] == reference_of(node_at_path(entries, len, front)));
    assert(branch_child(nodes, payload, n) == child_of(nodes, items[n as int]));
    law_update(nodes, inner, below_changes, rest);
    let below_rlp = trie_rlp(below(after, front), rest);
    assert forall|m: u8| m < 16 && m != n implies #[trigger] below(after, seq![m]) == below(
        entries,
        seq![m],
    ) by {
        lemma_below_overlay(entries, changes, seq![m]);
        assert forall|tail: Seq<u8>| !below(changes, seq![m]).contains_key(tail) by {
            if below(changes, seq![m]).contains_key(tail) {
                assert(changes.contains_key(seq![m] + tail));
                assert((seq![m] + tail)[0] == m);
            }
        }
        lemma_overlay_nothing(below(entries, seq![m]), below(changes, seq![m]));
    }
    let replaced = items.update(n as int, reference_of(below_rlp));
    assert forall|i: int| 0 <= i < 16 implies replaced[i] == #[trigger] after_items[i] by {
        let m = i as u8;
        assert(after_items[m as int] == reference_of(trie_rlp(below(after, seq![m]), rest)));
        assert(items[m as int] == reference_of(trie_rlp(below(entries, seq![m]), rest)));
        if m != n {
            assert(below(after, seq![m]) == below(entries, seq![m]));
        }
    }
    assert(replaced =~= after_items);
    let outcome = updated(nodes, trie_rlp(inner, rest), below_changes, rest);
    if outcome is Err {
        assert(missing(nodes, entries, len, Reach::of_changes(changes), outcome->Err_0));
    }
    if changes[key] is None {
        assert(has_removal(changes));
        assert forall|m: u8|
            #![trigger below(after, seq![m])]
            only_filled(after_items, m) implies (if m == n {
            below_rlp == trie_rlp(below(after, seq![m]), rest)
        } else {
            below(after, seq![m]) == below(entries, seq![m]) && leads_to_node(entries, seq![m])
        }) by {
            if m != n {
                assert(below(after, seq![m]) == below(entries, seq![m]));
                assert(leads_to_node(entries, seq![m]));
            }
        }
        lemma_removal_reaches(changes);
        lemma_closes(
            nodes,
            entries,
            after,
            len,
            Some((n, below_rlp)),
            Reach::of_changes(changes),
        );
    } else {
        assert(!has_removal(changes)) by {
            if has_removal(changes) {
                let other = choose|other: Seq<u8>| #[trigger]
                    changes.contains_key(other) && changes[other] is None;
                assert(other == key);
            }
        }
        lemma_trie_branch(after, len);
        lemma_spliced_items(items, n, reference_of(below_rlp));
        lemma_branch_len(after_items);
    }
}

/// Replacing the bytes of one item of a branch is replacing that item.
proof fn lemma_spliced_items(items: Seq<Seq<u8>>, nibble: u8, item: Seq<u8>)
    requires
        items.len() == 16,
        nibble < 16,
    ensures
        spliced(
            branch_payload(items),
            joined(items, nibble as nat).len() as int,
            joined(items, (nibble + 1) as nat).len() as int,
            item,
        ) == branch_payload(items.update(nibble as int, item)),
{
    lemma_spliced_joined(items, nibble, item, 16);
    let start = joined(items, nibble as nat).len() as int;
    let end = joined(items, (nibble + 1) as nat).len() as int;
    let whole = joined(items, 16);
    assert(spliced(branch_payload(items), start, end, item) =~= spliced(whole, start, end, item)
        + empty_rlp());
}

/// Replacing the bytes of one of the first items is replacing that item.
proof fn lemma_spliced_joined(items: Seq<Seq<u8>>, nibble: u8, item: Seq<u8>, count: nat)
    requires
        items.len() == 16,
        nibble < count <= 16,
    ensures
        joined(items, nibble as nat).len() <= joined(items, (nibble + 1) as nat).len() <= joined(
            items,
            count,
        ).len(),
        spliced(
            joined(items, count),
            joined(items, nibble as nat).len() as int,
            joined(items, (nibble + 1) as nat).len() as int,
            item,
        ) == joined(items.update(nibble as int, item), count),
    decreases count,
{
    let replaced = items.update(nibble as int, item);
    let start = joined(items, nibble as nat).len() as int;
    let end = joined(items, (nibble + 1) as nat).len() as int;
    if count == nibble + 1 {
        lemma_joined_same(items, replaced, nibble as nat);
        let front = joined(items, nibble as nat);
        assert(joined(items, count) == front + items[nibble as int]);
        assert(spliced(joined(items, count), start, end, item) =~= front + item);
    } else {
        let before = (count - 1) as nat;
        lemma_spliced_joined(items, nibble, item, before);
        assert(spliced(joined(items, count), start, end, item) =~= spliced(
            joined(items, before),
            start,
            end,
            item,
        ) + items[before as int]);
    }
}

/// Items that are the same are the same one after another.
proof fn lemma_joined_same(items: Seq<Seq<u8>>, other: Seq<Seq<u8>>, count: nat)
    requires
        forall|i: int| 0 <= i < count ==> items[i] == #[trigger] other[i],
    ensures
        joined(items, count) == joined(other, count),
    decreases count,
{
    if count > 0 {
        lemma_joined_same(items, other, (count - 1) as nat);
        assert(items[count - 1] == other[count - 1]);
    }
}

/// An update of an extension.
proof fn lemma_update_extension(
    nodes: Map<[u8; 32], Seq<u8>>,
    entries: Map<Seq<u8>, Seq<u8>>,
    changes: Map<Seq<u8>, Option<Seq<u8>>>,
    len: nat,
    path: Seq<u8>,
)
    requires
        recordable(entries, len),
        applicable(changes, len),
        faithful(nodes, entries, len),
        !no_keys(changes),
        is_split(entries, path),
        path.len() > 0,
    ensures
        comes_out(
            nodes,
            entries,
            len,
            Reach::of_changes(changes),
            updated(nodes, trie_rlp(entries, len), changes, len),
            trie_rlp(overlay(entries, changes), len),
        ),
    decreases len, 3nat, 0nat,
{
    let after = overlay(entries, changes);
    let root = trie_rlp(entries, len);
    let item = reference_of(node_at_path(entries, len, path));
    let encoded = hex_prefix(path, false);
    lemma_trie_extension(entries, len, path);
    lemma_recordable_below(entries, len, path);
    lemma_trie_node(below(entries, path), (len - path.len()) as nat);
    law_reference_leads_back(nodes, node_at_path(entries, len, path));
    law_extension_round_trip(path, item);
    lemma_trie_node(entries, len);
    lemma_split_not_single(entries, path);
    lemma_updated(nodes, root, changes, len);
    if all_start_with(changes, path) {
        lemma_extension_follows(nodes, root, encoded, item, changes, len);
        lemma_changes_within(changes, path);
        lemma_below_faithful(
            nodes,
            entries,
            len,
            path,
            Reach::of_changes(below(changes, path)),
            Reach::of_changes(changes),
        );
        lemma_applicable(entries, changes, len, path);
        let inner = below(entries, path);
        let below_changes = below(changes, path);
        let rest = (len - path.len()) as nat;
        assert(!no_keys(below_changes)) by {
            let key = choose|key: Seq<u8>| changes.contains_key(key);
            assert(changes.contains_key(key));
            lemma_below(changes, path, key);
            assert(below_changes.contains_key(key.skip(path.len() as int)));
        }
        lemma_child_read(nodes, entries, len, path, Reach::of_changes(changes));
        law_update(nodes, inner, below_changes, rest);
        let below_rlp = trie_rlp(below(after, path), rest);
        let outcome = updated(nodes, trie_rlp(inner, rest), below_changes, rest);
        if outcome is Err {
            assert(missing(nodes, entries, len, Reach::of_changes(changes), outcome->Err_0));
        }
        lemma_overlay_starts(entries, changes, path);
        lemma_none_below(after, path);
        lemma_recordable_below(after, len, path);
        lemma_trie_node(below(after, path), rest);
        if no_keys(after) {
            lemma_trie_empty(after, len);
        } else if has_removal(changes) {
            lemma_under(after, len, path);
        } else {
            lemma_still_parts(entries, changes, path);
            lemma_trie_extension(after, len, path);
        }
    } else {
        lemma_extension_parts(nodes, root, encoded, item, changes, len);
        lemma_update_split(nodes, entries, changes, len, path);
    }
}

/// An update of an extension the changes leave part way along.
proof fn lemma_update_split(
    nodes: Map<[u8; 32], Seq<u8>>,
    entries: Map<Seq<u8>, Seq<u8>>,
    changes: Map<Seq<u8>, Option<Seq<u8>>>,
    len: nat,
    path: Seq<u8>,
)
    requires
        recordable(entries, len),
        applicable(changes, len),
        faithful(nodes, entries, len),
        !no_keys(changes),
        is_split(entries, path),
        path.len() > 0,
        !all_start_with(changes, path),
    ensures
        comes_out(
            nodes,
            entries,
            len,
            Reach::of_changes(changes),
            split_extension(
                nodes,
                trie_rlp(entries, len),
                path,
                reference_of(node_at_path(entries, len, path)),
                changes,
                len,
            ),
            trie_rlp(overlay(entries, changes), len),
        ),
    decreases len, 2nat, 0nat,
{
    let after = overlay(entries, changes);
    let root = trie_rlp(entries, len);
    let child = reference_of(node_at_path(entries, len, path));
    let shared = agreed_len(changes, path);
    let front = path.subrange(0, shared as int);
    let nibble = path[shared as int];
    lemma_trie_extension(entries, len, path);
    lemma_agreed_len(changes, path);
    lemma_residual(entries, len, path, shared);
    lemma_split_extension(nodes, root, path, child, changes, len);
    if lone_removal(changes) {
        let key = the_key(changes);
        assert(only_key(changes, key));
        if entries.contains_key(key) {
            assert(all_start_with(changes, path)) by {
                assert forall|other: Seq<u8>| #[trigger] changes.contains_key(other) implies starts_with(
                    other,
                    path,
                ) by {
                    assert(other == key);
                }
            }
        }
        lemma_lone_removal(entries, changes);
    } else {
        let inner = below(entries, front);
        let below_changes = below(changes, front);
        let rest = (len - shared) as nat;
        lemma_overlay_starts(entries, changes, front);
        lemma_applicable(entries, changes, len, front);
        lemma_recordable_below(entries, len, front);
        lemma_changes_within(changes, front);
        lemma_below_faithful(
            nodes,
            entries,
            len,
            front,
            Reach::of_changes(below(changes, front)),
            Reach::of_changes(changes),
        );
        lemma_leaves_path(changes, path, shared);
        if is_single(changes) {
            lemma_update_split_one(entries, changes, len, path);
        } else {
            let prebuilt = residual_child(path, shared, child);
            assert forall|n: u8| n < 16 implies (prebuilt is Some && prebuilt->Some_0.0 == n)
                || no_keys(#[trigger] below(inner, seq![n])) || leads_to_node(inner, seq![n]) by {
                if n != nibble {
                    lemma_other_nibble(inner, nibble, n);
                }
            }
            assert(!has_removal(below_changes) ==> is_split(
                overlay(inner, below_changes),
                Seq::empty(),
            )) by {
                if !has_removal(below_changes) {
                    lemma_parts_at_split(inner, below_changes, nibble);
                }
            }
            lemma_branch_comes_out(nodes, inner, below_changes, rest, prebuilt);
            let outcome = children_updated(
                nodes,
                trie_items(inner, rest),
                below_changes,
                rest,
                prebuilt,
            );
            if outcome is Err {
                assert(missing(nodes, entries, len, Reach::of_changes(changes), outcome->Err_0));
            }
            lemma_none_below(after, front);
            lemma_recordable_below(after, len, front);
            lemma_trie_node(below(after, front), rest);
            if no_keys(after) {
                lemma_trie_empty(after, len);
            } else {
                lemma_under(after, len, front);
            }
        }
    }
}

/// Some key leaves the path at the nibble behind what they all share with it.
proof fn lemma_leaves_path(
    changes: Map<Seq<u8>, Option<Seq<u8>>>,
    path: Seq<u8>,
    shared: nat,
)
    requires
        shared < path.len(),
        all_start_with(changes, path.subrange(0, shared as int)),
        !all_start_with(changes, path.subrange(0, shared as int + 1)),
    ensures
        !all_start_with(
            below(changes, path.subrange(0, shared as int)),
            seq![path[shared as int]],
        ),
{
    let front = path.subrange(0, shared as int);
    let through = path.subrange(0, shared as int + 1);
    let nibble = path[shared as int];
    let inner = below(changes, front);
    let key = choose|key: Seq<u8>| #[trigger] changes.contains_key(key) && !starts_with(key, through);
    assert(changes.contains_key(key) && !starts_with(key, through));
    lemma_below(changes, front, key);
    lemma_starts_with(key, front);
    let tail = key.skip(shared as int);
    assert(inner.contains_key(tail));
    if starts_with(tail, seq![nibble]) {
        assert(tail.subrange(0, 1)[0] == nibble);
        assert(key.subrange(0, shared as int + 1) =~= through) by {
            assert(key.subrange(0, shared as int) == front);
            assert(key[shared as int] == tail[0]);
        }
    }
}

/// A nibble no key starts with has nothing below it.
proof fn lemma_other_nibble(entries: Map<Seq<u8>, Seq<u8>>, nibble: u8, other: u8)
    requires
        all_start_with(entries, seq![nibble]),
        other != nibble,
    ensures
        no_keys(below(entries, seq![other])),
{
    assert forall|key: Seq<u8>| !below(entries, seq![other]).contains_key(key) by {
        if below(entries, seq![other]).contains_key(key) {
            assert(entries.contains_key(seq![other] + key));
            assert(starts_with(seq![other] + key, seq![nibble]));
            assert((seq![other] + key).subrange(0, 1)[0] == other);
        }
    }
}

/// Entries below one nibble and a key written below another part at once.
proof fn lemma_parts_at_split(
    entries: Map<Seq<u8>, Seq<u8>>,
    changes: Map<Seq<u8>, Option<Seq<u8>>>,
    nibble: u8,
)
    requires
        !no_keys(entries),
        all_start_with(entries, seq![nibble]),
        !all_start_with(changes, seq![nibble]),
        exists|len: nat| keyed(changes, len) && keyed(entries, len) && len > 0,
        !has_removal(changes),
    ensures
        is_split(overlay(entries, changes), Seq::empty()),
{
    let after = overlay(entries, changes);
    let len = choose|len: nat| keyed(changes, len) && keyed(entries, len) && len > 0;
    let held = choose|key: Seq<u8>| entries.contains_key(key);
    assert(entries.contains_key(held));
    let key = choose|key: Seq<u8>| #[trigger]
        changes.contains_key(key) && !starts_with(key, seq![nibble]);
    assert(changes.contains_key(key) && !starts_with(key, seq![nibble]));
    assert(starts_with(held, seq![nibble]));
    assert(held.subrange(0, 1)[0] == nibble);
    assert(after.contains_key(held)) by {
        if changes.contains_key(held) {
            assert(changes[held] is Some);
        }
    }
    assert(changes[key] is Some);
    assert(after.contains_key(key));
    if key[0] == nibble {
        assert(key.subrange(0, 1) =~= seq![nibble]);
    }
    assert(parts(Seq::empty(), held, key));
    lemma_all_start_with_nothing(after);
}

/// One key written where it leaves an extension parts from it in a branch.
proof fn lemma_update_split_one(
    entries: Map<Seq<u8>, Seq<u8>>,
    changes: Map<Seq<u8>, Option<Seq<u8>>>,
    len: nat,
    path: Seq<u8>,
)
    requires
        recordable(entries, len),
        applicable(changes, len),
        is_split(entries, path),
        path.len() > 0,
        !all_start_with(changes, path),
        is_single(changes),
        !lone_removal(changes),
    ensures
        parted_rlp(
            path,
            residual_item(
                path,
                agreed_len(changes, path),
                reference_of(node_at_path(entries, len, path)),
            ),
            agreed_len(changes, path),
            changes,
        ) == trie_rlp(overlay(entries, changes), len),
{
    let after = overlay(entries, changes);
    let child = reference_of(node_at_path(entries, len, path));
    let shared = agreed_len(changes, path);
    let front = path.subrange(0, shared as int);
    let nibble = path[shared as int];
    let inner = below(entries, front);
    let below_changes = below(changes, front);
    let rest = (len - shared) as nat;
    let key = the_key(changes);
    let value = changes[key]->Some_0;
    lemma_agreed_len(changes, path);
    lemma_residual(entries, len, path, shared);
    lemma_leaves_path(changes, path, shared);
    lemma_overlay_starts(entries, changes, front);
    lemma_applicable(entries, changes, len, front);
    lemma_recordable_below(entries, len, front);
    assert(only_key(changes, key));
    assert(changes.contains_key(key));
    assert(starts_with(key, front));
    lemma_below(changes, front, key);
    lemma_starts_with(key, front);
    let tail = key.skip(shared as int);
    assert(below_changes.contains_key(tail));
    assert forall|other: Seq<u8>| #[trigger] below_changes.contains_key(other) implies other == tail by {
        assert(changes.contains_key(front + other));
        assert((front + other).skip(shared as int) =~= other);
    }
    assert(!has_removal(below_changes)) by {
        if has_removal(below_changes) {
            let other = choose|other: Seq<u8>| #[trigger]
                below_changes.contains_key(other) && below_changes[other] is None;
            assert(other == tail);
        }
    }
    lemma_below_keyed(changes, front, len);
    lemma_parts_at_split(inner, below_changes, nibble);
    let below_after = below(after, front);
    lemma_split_above(after, front, Seq::empty());
    assert(front + Seq::empty() =~= front);
    lemma_trie_split(after, len, front);
    lemma_trie_items(below_after, rest);
    lemma_trie_items(inner, rest);
    let items = absent_items().update(nibble as int, residual_item(path, shared, child)).update(
        key[shared as int] as int,
        reference_of(leaf_rlp(key.skip(shared as int + 1), value)),
    );
    let after_items = trie_items(below_after, rest);
    assert(tail[0] == key[shared as int]);
    assert(tail[0] != nibble) by {
        if tail[0] == nibble {
            assert(tail.subrange(0, 1) =~= seq![nibble]);
            assert(all_start_with(below_changes, seq![nibble]));
        }
    }
    assert(tail[0] < 16 && nibble < 16);
    assert forall|n: u8| n < 16 implies #[trigger] after_items[n as int] == items[n as int] by {
        let sub = below(below_after, seq![n]);
        lemma_below_overlay(inner, below_changes, seq![n]);
        if n == tail[0] {
            lemma_other_nibble(inner, nibble, n);
            assert(tail.subrange(0, 1) =~= seq![n]);
            lemma_below(below_changes, seq![n], tail);
            lemma_starts_with(tail, seq![n]);
            let leaf_path = key.skip(shared as int + 1);
            assert(tail.skip(1) =~= leaf_path);
            assert forall|other: Seq<u8>| #[trigger] sub.contains_key(other) <==> other == leaf_path by {
                if sub.contains_key(other) && below(below_changes, seq![n]).contains_key(other) {
                    assert(below_changes.contains_key(seq![n] + other));
                    assert((seq![n] + other).skip(1) =~= other);
                }
            }
            assert(only_key(sub, leaf_path));
            lemma_trie_leaf(sub, (rest - 1) as nat, leaf_path);
        } else {
            assert forall|other: Seq<u8>| !below(below_changes, seq![n]).contains_key(other) by {
                if below(below_changes, seq![n]).contains_key(other) {
                    assert(below_changes.contains_key(seq![n] + other));
                    assert((seq![n] + other)[0] == n);
                }
            }
            lemma_overlay_nothing(below(inner, seq![n]), below(below_changes, seq![n]));
            assert(trie_items(inner, rest)[n as int] == items[n as int]);
        }
    }
    assert forall|i: int| 0 <= i < 16 implies #[trigger] after_items[i] == items[i] by {
        assert(after_items[i as u8 as int] == items[i as u8 as int]);
    }
    assert(after_items =~= items);
    assert(key.subrange(0, shared as int) == front);
}

} // verus!
