//! What a change set does to a trie, change by change, and what it takes for a witness to be one of a
//! trie.

use vstd::prelude::*;

use crate::block::names_none;
use crate::changes::{
    agree, change_map, change_value, in_order, key_from, lemma_change_at, lemma_change_of,
    lemma_unpacked, names_values, precedes, Change,
};
use crate::error::PathError;
use crate::forms::law_number_of_bytes;
use crate::keccak::keccak;
use crate::laws::{commits, holds_trie, law_read, law_update_root};
use crate::nibbles::{is_path, unpacked};
use crate::outcome::{applicable, faithful, node_at_path, Reach};
use crate::path::{trie_read, updated_root};
use crate::rlp::be_value;
use crate::trie::{below, lemma_below_nothing, overlay, trie_rlp};

verus! {

/// What makes a root one of a trie and a witness one that answers for it: keys of sixty-four nibbles
/// with values no wider than an account, the hash of the trie's root node, and no node under the hash
/// of another.
pub proof fn law_commits_where(
    nodes: Map<[u8; 32], Seq<u8>>,
    root: [u8; 32],
    entries: Map<Seq<u8>, Seq<u8>>,
)
    requires
        forall|key: Seq<u8>| #[trigger]
            entries.contains_key(key) ==> key.len() == 64 && entries[key].len() <= 110,
        forall|key: Seq<u8>, i: int|
            #[trigger] entries.contains_key(key) && 0 <= i < 64 ==> #[trigger] key[i] < 16,
        root == keccak(trie_rlp(entries, 64)),
        root == keccak(seq![0x80u8]) ==> forall|key: Seq<u8>| !entries.contains_key(key),
        forall|bytes: Seq<u8>|
            nodes.contains_key(#[trigger] keccak(bytes)) ==> nodes[keccak(bytes)] == bytes,
    ensures
        commits(nodes, root, entries),
{
    assert(faithful(nodes, entries, 64)) by {
        assert forall|path: Seq<u8>| nodes.contains_key(
            keccak(#[trigger] node_at_path(entries, 64, path)),
        ) implies nodes[keccak(node_at_path(entries, 64, path))] == node_at_path(
            entries,
            64,
            path,
        ) by {}
    }
}

/// Whether a witness holds every node of a trie.
pub open spec fn holds_every_node(
    nodes: Map<[u8; 32], Seq<u8>>,
    entries: Map<Seq<u8>, Seq<u8>>,
) -> bool {
    forall|path: Seq<u8>|
        path.len() <= 64 ==> nodes.contains_key(
            keccak(trie_rlp(#[trigger] below(entries, path), (64 - path.len()) as nat)),
        )
}

/// A witness that holds every node of a trie holds what anything asks for of it.
pub proof fn law_holds_where(
    nodes: Map<[u8; 32], Seq<u8>>,
    root: [u8; 32],
    entries: Map<Seq<u8>, Seq<u8>>,
    reach: Reach,
)
    requires
        root == keccak(trie_rlp(entries, 64)),
        holds_every_node(nodes, entries),
    ensures
        holds_trie(nodes, root, entries, reach),
{
    lemma_below_nothing(entries);
    assert(nodes.contains_key(
        keccak(trie_rlp(below(entries, Seq::empty()), (64 - Seq::<u8>::empty().len()) as nat)),
    ));
}

/// With every node of a trie at hand, a read finds the value under its key, and nothing where the trie
/// has none.
pub proof fn law_read_finds(
    nodes: Map<[u8; 32], Seq<u8>>,
    root: [u8; 32],
    entries: Map<Seq<u8>, Seq<u8>>,
    key: [u8; 32],
)
    requires
        commits(nodes, root, entries),
        holds_every_node(nodes, entries),
    ensures
        trie_read(nodes, root, unpacked(key@)) == Ok::<Option<Seq<u8>>, PathError>(
            if entries.contains_key(unpacked(key@)) {
                Some(entries[unpacked(key@)])
            } else {
                None
            },
        ),
{
    law_holds_where(nodes, root, entries, Reach::of_key(unpacked(key@)));
    law_read(nodes, root, entries, key);
}

/// A change set is in order where the numbers its keys write rise.
pub proof fn law_in_order_where(changes: Seq<Change>)
    ensures
        in_order(changes) <==> forall|i: int, j: int|
            0 <= i < j < changes.len() ==> be_value((#[trigger] changes[i]).0@) < be_value(
                (#[trigger] changes[j]).0@,
            ),
{
    assert forall|i: int, j: int| 0 <= i < j < changes.len() implies precedes(
        (#[trigger] changes[i]).0@,
        (#[trigger] changes[j]).0@,
    ) == (be_value(changes[i].0@) < be_value(changes[j].0@)) by {
        law_order_of_numbers(changes[i].0@, changes[j].0@);
    }
}

/// Byte strings of one length are in order where the numbers they write are.
pub proof fn law_order_of_numbers(left: Seq<u8>, right: Seq<u8>)
    requires
        left.len() == right.len(),
    ensures
        precedes(left, right) <==> be_value(left) < be_value(right),
    decreases left.len(),
{
    if left.len() > 0 {
        let (l, r) = (left.drop_last(), right.drop_last());
        law_order_of_numbers(l, r);
        law_order_of_numbers(r, l);
        law_number_of_bytes(l);
        law_number_of_bytes(r);
        assert(l.push(left.last()) =~= left);
        assert(r.push(right.last()) =~= right);
        if precedes(left, right) {
            let at = choose|at: int|
                0 <= at < left.len() && at < right.len() && #[trigger] left[at] < right[at]
                    && left.subrange(0, at) == right.subrange(0, at);
            if at < l.len() {
                assert(l[at] < r[at]);
                assert(l.subrange(0, at) =~= left.subrange(0, at));
                assert(r.subrange(0, at) =~= right.subrange(0, at));
                assert(precedes(l, r));
            } else {
                assert(l =~= left.subrange(0, at));
                assert(r =~= right.subrange(0, at));
            }
        }
        if be_value(left) < be_value(right) {
            if be_value(l) < be_value(r) {
                let at = choose|at: int|
                    0 <= at < l.len() && at < r.len() && #[trigger] l[at] < r[at] && l.subrange(0, at)
                        == r.subrange(0, at);
                assert(left[at] < right[at]);
                assert(l.subrange(0, at) =~= left.subrange(0, at));
                assert(r.subrange(0, at) =~= right.subrange(0, at));
            } else {
                lemma_same_number(l, r);
                let at = left.len() - 1;
                assert(left[at] < right[at]);
                assert(l =~= left.subrange(0, at));
                assert(r =~= right.subrange(0, at));
            }
        }
    }
}

/// Byte strings of one length that write the same number are the same.
proof fn lemma_same_number(left: Seq<u8>, right: Seq<u8>)
    requires
        left.len() == right.len(),
        be_value(left) == be_value(right),
    ensures
        left == right,
    decreases left.len(),
{
    if left.len() > 0 {
        let (l, r) = (left.drop_last(), right.drop_last());
        law_number_of_bytes(l);
        law_number_of_bytes(r);
        assert(l.push(left.last()) =~= left);
        assert(r.push(right.last()) =~= right);
        lemma_same_number(l, r);
    }
    assert(left =~= right);
}

/// Whether `after` is what a trie that held `before` is left with: each key that is written at the
/// value its change names, each that is removed without an entry, and every other as it was.
pub open spec fn leaves_values(
    before: Map<Seq<u8>, Seq<u8>>,
    changes: Seq<Change>,
    values: Seq<Seq<u8>>,
    after: Map<Seq<u8>, Seq<u8>>,
) -> bool {
    &&& forall|i: int|
        0 <= i < changes.len() ==> match (#[trigger] changes[i]).1 {
            None => !after.contains_key(unpacked(changes[i].0@)),
            Some(index) => after.contains_key(unpacked(changes[i].0@)) && after[unpacked(
                changes[i].0@,
            )] == values[index as int],
        }
    &&& forall|key: Seq<u8>|
        names_none(changes, key) ==> {
            &&& #[trigger] after.contains_key(key) <==> before.contains_key(key)
            &&& after.contains_key(key) ==> after[key] == before[key]
        }
}

/// What a change set does from a depth on, up to which all its keys are alike, is what each of its
/// changes does to the rest of its key, and nothing to any other.
pub proof fn law_changes_of_batch(
    changes: Seq<Change>,
    values: Seq<Seq<u8>>,
    depth: nat,
    map: Map<Seq<u8>, Option<Seq<u8>>>,
)
    requires
        depth <= 64,
        in_order(changes),
        forall|i: int, j: int|
            0 <= i < changes.len() && 0 <= j < changes.len() ==> unpacked(
                (#[trigger] changes[i]).0@,
            ).take(depth as int) == unpacked((#[trigger] changes[j]).0@).take(depth as int),
        forall|i: int|
            0 <= i < changes.len() ==> {
                let rest = unpacked((#[trigger] changes[i]).0@).subrange(depth as int, 64);
                &&& map.contains_key(rest)
                &&& map[rest] == match changes[i].1 {
                    Some(index) => Some(values[index as int]),
                    None => None,
                }
            },
        forall|key: Seq<u8>| #[trigger]
            map.contains_key(key) ==> exists|i: int|
                0 <= i < changes.len() && unpacked((#[trigger] changes[i]).0@).subrange(
                    depth as int,
                    64,
                ) == key,
    ensures
        change_map(changes, values, depth) == map,
{
    let made = change_map(changes, values, depth);
    assert forall|i: int| 0 <= i < changes.len() implies key_from(#[trigger] changes[i], depth)
        == unpacked(changes[i].0@).subrange(depth as int, 64) by {
        lemma_unpacked(changes[i].0@);
        assert(unpacked(changes[i].0@).skip(depth as int) =~= unpacked(changes[i].0@).subrange(
            depth as int,
            64,
        ));
    }
    assert(agree(changes, depth)) by {
        assert forall|i: int, j: int|
            0 <= i < changes.len() && 0 <= j < changes.len() implies unpacked(
            (#[trigger] changes[i]).0@,
        ).subrange(0, depth as int) == unpacked((#[trigger] changes[j]).0@).subrange(
            0,
            depth as int,
        ) by {
            let (left, right) = (unpacked(changes[i].0@), unpacked(changes[j].0@));
            assert(left.take(depth as int) == right.take(depth as int));
            assert(left.subrange(0, depth as int) =~= left.take(depth as int));
            assert(right.subrange(0, depth as int) =~= right.take(depth as int));
        }
    }
    assert forall|key: Seq<u8>| (#[trigger] made.contains_key(key) <==> map.contains_key(key)) && (
    map.contains_key(key) ==> made[key] == map[key]) by {
        if made.contains_key(key) {
            let i = lemma_change_of(changes, values, depth, key);
            assert(map.contains_key(unpacked(changes[i].0@).subrange(depth as int, 64)));
        } else if map.contains_key(key) {
            let i = choose|i: int|
                0 <= i < changes.len() && unpacked((#[trigger] changes[i]).0@).subrange(
                    depth as int,
                    64,
                ) == key;
            lemma_change_at(changes, values, depth, i);
        }
    }
    assert(made =~= map);
}

/// A change set is drawn up for whole keys.
proof fn lemma_whole_keys(changes: Seq<Change>)
    ensures
        agree(changes, 0),
        forall|i: int|
            0 <= i < changes.len() ==> key_from(#[trigger] changes[i], 0) == unpacked(changes[i].0@),
{
    assert forall|i: int, j: int|
        0 <= i < changes.len() && 0 <= j < changes.len() implies unpacked(
        (#[trigger] changes[i]).0@,
    ).subrange(0, 0) == unpacked((#[trigger] changes[j]).0@).subrange(0, 0) by {
        assert(unpacked(changes[i].0@).subrange(0, 0) =~= unpacked(changes[j].0@).subrange(0, 0));
    }
    assert forall|i: int| 0 <= i < changes.len() implies key_from(#[trigger] changes[i], 0)
        == unpacked(changes[i].0@) by {
        assert(unpacked(changes[i].0@).skip(0) =~= unpacked(changes[i].0@));
    }
}

/// A change set comes to the root of the trie with each key it writes at the value it names, each it
/// removes gone, and every other as it was. With every node of the trie at hand it does come to it.
pub proof fn law_batch_root(
    nodes: Map<[u8; 32], Seq<u8>>,
    root: [u8; 32],
    entries: Map<Seq<u8>, Seq<u8>>,
    changes: Seq<Change>,
    values: Seq<Seq<u8>>,
    after: Map<Seq<u8>, Seq<u8>>,
)
    requires
        commits(nodes, root, entries),
        in_order(changes),
        names_values(changes, values.len()),
        forall|i: int| 0 <= i < values.len() ==> (#[trigger] values[i]).len() <= 110,
        leaves_values(entries, changes, values, after),
    ensures
        updated_root(nodes, root, change_map(changes, values, 0)) matches Ok(after_root)
            ==> after_root == keccak(trie_rlp(after, 64)),
        holds_every_node(nodes, entries) ==> updated_root(nodes, root, change_map(changes, values, 0)) == Ok::<
            [u8; 32],
            PathError,
        >(keccak(trie_rlp(after, 64))),
{
    let map = change_map(changes, values, 0);
    lemma_whole_keys(changes);
    assert(applicable(map, 64)) by {
        assert forall|key: Seq<u8>| #[trigger] map.contains_key(key) implies key.len() == 64
            && is_path(key) && (map[key] matches Some(value) ==> value.len()
            <= 110) by {
            let i = lemma_change_of(changes, values, 0, key);
            lemma_unpacked(changes[i].0@);
        }
    }
    let expected = overlay(entries, map);
    assert forall|key: Seq<u8>| (#[trigger] expected.contains_key(key) <==> after.contains_key(key)) && (
    after.contains_key(key) ==> expected[key] == after[key]) by {
        if map.contains_key(key) {
            let i = lemma_change_of(changes, values, 0, key);
            assert(map[key] == change_value(changes[i], values));
        } else {
            assert(names_none(changes, key)) by {
                assert forall|i: int| 0 <= i < changes.len() implies unpacked(
                    (#[trigger] changes[i]).0@,
                ) != key by {
                    lemma_change_at(changes, values, 0, i);
                }
            }
            assert(after.contains_key(key) <==> entries.contains_key(key));
        }
    }
    assert(expected =~= after);
    law_update_root(nodes, root, entries, map);
    if holds_every_node(nodes, entries) {
        law_holds_where(nodes, root, entries, Reach::of_changes(map));
    }
}

/// A key reads back under the root a change set comes to: what its change wrote, nothing where it was
/// removed, and where it was not changed what it held.
pub proof fn law_batch_reads_back(
    before: Map<Seq<u8>, Seq<u8>>,
    changes: Seq<Change>,
    values: Seq<Seq<u8>>,
    after: Map<Seq<u8>, Seq<u8>>,
    later: Map<[u8; 32], Seq<u8>>,
    root: [u8; 32],
    key: [u8; 32],
)
    requires
        leaves_values(before, changes, values, after),
        commits(later, root, after),
        holds_trie(later, root, after, Reach::of_key(unpacked(key@))),
    ensures
        forall|i: int|
            0 <= i < changes.len() && (#[trigger] changes[i]).0 == key ==> match trie_read(
                later,
                root,
                unpacked(key@),
            ) {
                Ok(Some(value)) => changes[i].1 is Some && value
                    == values[changes[i].1->Some_0 as int],
                Ok(None) => changes[i].1 is None,
                Err(_) => false,
            },
        names_none(changes, unpacked(key@)) ==> match trie_read(later, root, unpacked(key@)) {
            Ok(Some(value)) => before.contains_key(unpacked(key@)) && before[unpacked(key@)] == value,
            Ok(None) => !before.contains_key(unpacked(key@)),
            Err(_) => false,
        },
{
    law_read(later, root, after, key);
    if names_none(changes, unpacked(key@)) {
        assert(after.contains_key(unpacked(key@)) <==> before.contains_key(unpacked(key@)));
    }
}

} // verus!
