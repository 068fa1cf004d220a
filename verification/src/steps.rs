//! What each step of recomputing a trie comes to, which a descent over a change set is held to.

use vstd::prelude::*;

use crate::changes::{
    agree, any_write, change_map, change_value, in_order, key_from, lemma_all_start_with,
    lemma_any_removal, lemma_change_at, lemma_change_count, lemma_change_of, lemma_change_run,
    lemma_key_order, lemma_run_shares, lemma_unpacked, Change,
};
use crate::descent::{
    absent_items, agreed_len, lemma_agreed_is, lemma_agreed_len, lemma_removed_at_end, updated,
};
use crate::encode::{
    branch_rlp, extension_rlp, joined, leaf_rlp, lemma_extension_len, lemma_list_filled,
    reference_of, MAX_GAPPED_BRANCH_RLP, MAX_LEAF_RLP,
};
use crate::nibbles::{follows, hex_prefix, is_path, lemma_shared_len, shared_len, unpacked};
use crate::node::{empty_rlp, MAX_BRANCH_RLP, MAX_ITEM};
use crate::rlp::rlp_string;
use crate::stack::{
    branch_descent_bytes, descent_bytes, lemma_descent_bytes, lemma_room_saves, residual_bytes,
    split_bytes, BRANCH_CARRY, FRAME_TAIL, LEAF_TAIL,
};
use crate::trie::{
    all_start_with, below, branch_under_rlp, entry, has_removal, is_single, is_split,
    lemma_below_below, lemma_below_entry, lemma_below_overlay, lemma_overlay_nothing,
    lemma_starts_with, lemma_trie_empty, lemma_trie_items, lemma_trie_leaf, lemma_trie_split,
    no_keys, only_key, overlay, parts, starts_with, the_key, trie_items, trie_rlp, written,
};
use crate::update::shared_by_all;

verus! {

/// The items of the branch being built once the nibbles short of `next` are done: the subtree each
/// write reaches, and nothing where none does.
pub open spec fn run_items(
    inner: Map<Seq<u8>, Option<Seq<u8>>>,
    entries: Map<Seq<u8>, Seq<u8>>,
    rest: nat,
    next: int,
) -> Seq<Seq<u8>> {
    Seq::new(
        16,
        |n: int|
            if n < next && writes_below(inner, n as u8) {
                reference_of(trie_rlp(below(entries, seq![n as u8]), rest))
            } else {
                empty_rlp()
            },
    )
}

/// Nibbles no write reaches leave the items as they are.
pub(crate) proof fn lemma_run_items(
    inner: Map<Seq<u8>, Option<Seq<u8>>>,
    entries: Map<Seq<u8>, Seq<u8>>,
    rest: nat,
    next: int,
    nibble: u8,
)
    requires
        0 <= next <= nibble < 16,
        forall|n: u8| next <= n < nibble ==> !#[trigger] writes_below(inner, n),
    ensures
        writes_below(inner, nibble) ==> run_items(inner, entries, rest, nibble + 1) == run_items(
            inner,
            entries,
            rest,
            next,
        ).update(nibble as int, reference_of(trie_rlp(below(entries, seq![nibble]), rest))),
        !writes_below(inner, nibble) ==> run_items(inner, entries, rest, nibble + 1) == run_items(
            inner,
            entries,
            rest,
            next,
        ),
{
    let (before, after) = (
        run_items(inner, entries, rest, next),
        run_items(inner, entries, rest, nibble + 1),
    );
    assert forall|n: int| 0 <= n < 16 && n != nibble implies #[trigger] after[n] == before[n] by {
        if next <= n < nibble {
            assert(!writes_below(inner, n as u8));
        }
    }
    if writes_below(inner, nibble) {
        assert(after =~= before.update(
            nibble as int,
            reference_of(trie_rlp(below(entries, seq![nibble]), rest)),
        ));
    } else {
        assert(after =~= before);
    }
}

/// A descent holds at least a leaf.
pub(crate) proof fn lemma_tail_floor(depth: int)
    requires
        0 <= depth <= 64,
    ensures
        descent_bytes(depth, true) >= LEAF_TAIL,
        descent_bytes(depth, false) >= descent_bytes(depth, true),
{
    lemma_room_saves(depth);
    if depth < 64 {
        lemma_descent_bytes(depth, 64, true);
    }
}

/// A write leaves the subtree it reaches filled.
pub(crate) proof fn lemma_still_written(
    held_entries: Map<Seq<u8>, Seq<u8>>,
    changes: Seq<Change>,
    rlps: Seq<Seq<u8>>,
    depth: nat,
)
    requires
        !no_keys(written(change_map(changes, rlps, depth))),
    ensures
        !no_keys(overlay(held_entries, change_map(changes, rlps, depth))),
{
    let map = change_map(changes, rlps, depth);
    let key = choose|key: Seq<u8>| written(map).contains_key(key);
    assert(overlay(held_entries, map).contains_key(key));
}

/// The entry a subtree already held, if any.
pub open spec fn held_view(existing: Option<(&[u8], &[u8])>) -> Option<(Seq<u8>, Seq<u8>)> {
    match existing {
        Some((path, value)) => Some((path@, value@)),
        None => None,
    }
}

/// The entry a subtree already held, as entries.
pub open spec fn entries_of(existing: Option<(&[u8], &[u8])>) -> Map<Seq<u8>, Seq<u8>> {
    held_entries_of(held_view(existing))
}

/// The entry a subtree already held, as entries.
pub open spec fn held_entries_of(existing: Option<(Seq<u8>, Seq<u8>)>) -> Map<Seq<u8>, Seq<u8>> {
    match existing {
        Some((path, value)) => entry(path, value),
        None => Map::empty(),
    }
}

/// What a subtree already held is that one entry, or nothing.
pub proof fn law_held_entry(path: &[u8], value: &[u8], key: Seq<u8>)
    ensures
        entries_of(Some((path, value))).contains_key(key) <==> key == path@,
        entries_of(Some((path, value)))[path@] == value@,
        !entries_of(None).contains_key(key),
{
}

/// Whether any change below `nibble` writes.
pub open spec fn writes_below(changes: Map<Seq<u8>, Option<Seq<u8>>>, nibble: u8) -> bool {
    !no_keys(written(below(changes, seq![nibble])))
}

/// A write among the changes is one among what they do.
pub(crate) proof fn lemma_any_write(changes: Seq<Change>, rlps: Seq<Seq<u8>>, depth: nat)
    requires
        in_order(changes),
        agree(changes, depth),
        depth <= 64,
    ensures
        any_write(changes) == !no_keys(written(change_map(changes, rlps, depth))),
{
    let map = change_map(changes, rlps, depth);
    if any_write(changes) {
        let i = choose|i: int| 0 <= i < changes.len() && (#[trigger] changes[i]).1 is Some;
        lemma_change_at(changes, rlps, depth, i);
        assert(written(map).contains_key(key_from(changes[i], depth)));
    }
    if !no_keys(written(map)) {
        let key = choose|key: Seq<u8>| written(map).contains_key(key);
        assert(map.contains_key(key));
        let i = lemma_change_of(changes, rlps, depth, key);
        assert(changes[i].1 is Some);
    }
}

/// Removals of keys the entries do not hold leave them as they are.
pub(crate) proof fn lemma_only_removals(
    changes: Seq<Change>,
    rlps: Seq<Seq<u8>>,
    depth: nat,
    entries: Map<Seq<u8>, Seq<u8>>,
)
    requires
        forall|i: int| 0 <= i < changes.len() ==> (#[trigger] changes[i]).1 is None,
        forall|key: Seq<u8>| #[trigger]
            entries.contains_key(key) ==> !change_map(changes, rlps, depth).contains_key(key),
    ensures
        overlay(entries, change_map(changes, rlps, depth)) == entries,
{
    let map = change_map(changes, rlps, depth);
    assert forall|key: Seq<u8>| #[trigger] map.contains_key(key) implies map[key] is None
        && !entries.contains_key(key) by {
        let i = lemma_change_of(changes, rlps, depth, key);
    }
    lemma_overlay_nothing(entries, map);
}

/// One write among removals is what they write.
pub(crate) proof fn lemma_single_write(changes: Seq<Change>, rlps: Seq<Seq<u8>>, depth: nat, first: int)
    requires
        in_order(changes),
        agree(changes, depth),
        depth <= 64,
        0 <= first < changes.len(),
        changes[first].1 is Some,
        forall|i: int| 0 <= i < changes.len() && i != first ==> (#[trigger] changes[i]).1 is None,
    ensures
        only_key(
            overlay(Map::empty(), change_map(changes, rlps, depth)),
            key_from(changes[first], depth),
        ),
        overlay(Map::empty(), change_map(changes, rlps, depth))[key_from(changes[first], depth)]
            == rlps[changes[first].1->Some_0 as int],
{
    let map = change_map(changes, rlps, depth);
    let writes = overlay(Map::empty(), map);
    lemma_change_at(changes, rlps, depth, first);
    assert forall|key: Seq<u8>| #[trigger] writes.contains_key(key) <==> key == key_from(
        changes[first],
        depth,
    ) by {
        if writes.contains_key(key) {
            let i = lemma_change_of(changes, rlps, depth, key);
        }
    }
}

/// What the subtree a frame builds is delimited by: the changes from the lowest write to the
/// highest, and the entry it already held.
pub open spec fn delimited(
    changes: Seq<Change>,
    rlps: Seq<Seq<u8>>,
    depth: nat,
    existing: Option<(Seq<u8>, Seq<u8>)>,
    first: int,
    last: int,
) -> bool {
    &&& in_order(changes)
    &&& agree(changes, depth)
    &&& depth <= 64
    &&& 0 <= first <= last < changes.len()
    &&& changes[first].1 is Some
    &&& changes[last].1 is Some
    &&& forall|i: int| 0 <= i < first ==> (#[trigger] changes[i]).1 is None
    &&& forall|i: int| last < i < changes.len() ==> (#[trigger] changes[i]).1 is None
    &&& first < last || existing is Some
    &&& existing matches Some((path, value)) ==> {
        &&& path.len() == 64 - depth
        &&& !change_map(changes, rlps, depth).contains_key(path)
    }
}

/// The path of the entry a subtree already held.
pub open spec fn held_path_of(existing: Option<(Seq<u8>, Seq<u8>)>) -> Option<Seq<u8>> {
    match existing {
        Some((path, value)) => Some(path),
        None => None,
    }
}

/// The lowest write, the highest and the entry already there are alike as far as they share, and
/// two of them part behind it.
pub(crate) proof fn lemma_built_parts(
    changes: Seq<Change>,
    rlps: Seq<Seq<u8>>,
    depth: nat,
    existing: Option<(Seq<u8>, Seq<u8>)>,
    first: int,
    last: int,
) -> (shared: nat)
    requires
        delimited(changes, rlps, depth, existing, first, last),
    ensures
        shared == shared_by_all(
            key_from(changes[first], depth),
            key_from(changes[last], depth),
            held_path_of(existing),
        ),
        shared < 64 - depth,
        ({
            let (low, high) = (key_from(changes[first], depth), key_from(changes[last], depth));
            let path = low.subrange(0, shared as int);
            &&& path.len() == shared
            &&& starts_with(low, path)
            &&& starts_with(high, path)
            &&& match existing {
                Some((held_path, value)) => {
                    &&& starts_with(held_path, path)
                    &&& parts(path, low, high) || parts(path, low, held_path) || parts(
                        path,
                        high,
                        held_path,
                    )
                },
                None => parts(path, low, high),
            }
        }),
{
    let (low, high) = (key_from(changes[first], depth), key_from(changes[last], depth));
    lemma_unpacked(changes[first].0@);
    lemma_unpacked(changes[last].0@);
    lemma_shared_len(low, high);
    lemma_change_at(changes, rlps, depth, first);
    lemma_change_at(changes, rlps, depth, last);
    if first < last {
        lemma_key_order(changes, depth, first, last);
    }
    let shared = shared_by_all(low, high, held_path_of(existing));
    match existing {
        Some((held_path, value)) => {
            lemma_shared_len(low, held_path);
            lemma_shared_len(high, held_path);
            lemma_subrange_shorter(low, held_path, shared_len(low, held_path), shared);
            lemma_subrange_shorter(high, held_path, shared_len(high, held_path), shared);
        },
        None => {
            lemma_subrange_shorter(low, high, shared_len(low, high), shared);
        },
    }
    shared
}

/// Every change from the lowest write to the highest is alike as far as those two are.
pub(crate) proof fn lemma_built_shares(
    changes: Seq<Change>,
    depth: nat,
    first: int,
    last: int,
    path: Seq<u8>,
)
    requires
        in_order(changes),
        agree(changes, depth),
        depth + path.len() <= 64,
        0 <= first <= last < changes.len(),
        starts_with(key_from(changes[first], depth), path),
        starts_with(key_from(changes[last], depth), path),
    ensures
        forall|i: int|
            first <= i <= last ==> starts_with(key_from(#[trigger] changes[i], depth), path),
        in_order(changes.subrange(first, last + 1)),
        agree(changes.subrange(first, last + 1), depth + path.len()),
{
    let split = (depth + path.len()) as int;
    let (l, h) = (unpacked(changes[first].0@), unpacked(changes[last].0@));
    let middle = changes.subrange(first, last + 1);
    lemma_unpacked(changes[first].0@);
    lemma_unpacked(changes[last].0@);
    assert(l.subrange(0, split) =~= l.subrange(0, depth as int) + key_from(
        changes[first],
        depth,
    ).subrange(0, path.len() as int));
    assert(h.subrange(0, split) =~= h.subrange(0, depth as int) + key_from(
        changes[last],
        depth,
    ).subrange(0, path.len() as int));
    assert forall|i: int| first <= i <= last implies unpacked((#[trigger] changes[i]).0@).subrange(
        0,
        split,
    ) == l.subrange(0, split) by {
        lemma_run_shares(changes, first, last, i, split);
    }
    assert((l.subrange(0, depth as int) + path).skip(depth as int) =~= path);
    assert forall|i: int| first <= i <= last implies starts_with(
        key_from(#[trigger] changes[i], depth),
        path,
    ) by {
        lemma_unpacked(changes[i].0@);
        assert(key_from(changes[i], depth).subrange(0, path.len() as int) =~= unpacked(
            changes[i].0@,
        ).subrange(0, split).skip(depth as int));
    }
    assert forall|i: int, j: int| 0 <= i < middle.len() && 0 <= j < middle.len() implies unpacked(
        (#[trigger] middle[i]).0@,
    ).subrange(0, split) == unpacked((#[trigger] middle[j]).0@).subrange(0, split) by {
        assert(middle[i] == changes[first + i] && middle[j] == changes[first + j]);
    }
}

/// Below what the keys of a subtree share, the changes from the lowest write to the highest are all
/// it takes.
pub(crate) proof fn lemma_built_below(
    changes: Seq<Change>,
    rlps: Seq<Seq<u8>>,
    depth: nat,
    existing: Option<(Seq<u8>, Seq<u8>)>,
    first: int,
    last: int,
    path: Seq<u8>,
)
    requires
        delimited(changes, rlps, depth, existing, first, last),
        depth + path.len() <= 64,
        forall|i: int|
            first <= i <= last ==> starts_with(key_from(#[trigger] changes[i], depth), path),
        in_order(changes.subrange(first, last + 1)),
        agree(changes.subrange(first, last + 1), depth + path.len()),
        existing matches Some((held_path, value)) ==> starts_with(held_path, path),
    ensures
        below(overlay(held_entries_of(existing), change_map(changes, rlps, depth)), path)
            == overlay(
            below(held_entries_of(existing), path),
            change_map(changes.subrange(first, last + 1), rlps, depth + path.len()),
        ),
        existing matches Some((held_path, value)) ==> !change_map(
            changes.subrange(first, last + 1),
            rlps,
            depth + path.len(),
        ).contains_key(held_path.skip(path.len() as int)),
{
    let map = change_map(changes, rlps, depth);
    let held_entries = held_entries_of(existing);
    let middle = changes.subrange(first, last + 1);
    let split = depth + path.len();
    let inner = change_map(middle, rlps, split);
    assert forall|i: int| 0 <= i < changes.len() implies #[trigger] key_from(changes[i], split)
        == key_from(changes[i], depth).skip(path.len() as int) by {
        assert(key_from(changes[i], split) =~= key_from(changes[i], depth).skip(path.len() as int));
    }
    assert forall|key: Seq<u8>| #[trigger] inner.contains_key(key) implies map.contains_key(path + key)
        && map[path + key] == inner[key] by {
        let i = lemma_change_of(middle, rlps, split, key);
        assert(middle[i] == changes[first + i]);
        lemma_change_at(changes, rlps, depth, first + i);
        lemma_starts_with(key_from(changes[first + i], depth), path);
        assert(key_from(changes[first + i], depth) == path + key);
    }
    assert forall|key: Seq<u8>| map.contains_key(#[trigger] (path + key)) && map[path + key] is Some implies inner.contains_key(
        key,
    ) by {
        let i = lemma_change_of(changes, rlps, depth, path + key);
        assert(first <= i <= last);
        lemma_starts_with(key, path);
        assert(middle[i - first] == changes[i]);
        lemma_change_at(middle, rlps, split, i - first);
    }
    let entries = overlay(held_entries, map);
    let (left, right) = (below(entries, path), overlay(below(held_entries, path), inner));
    assert forall|key: Seq<u8>| left.contains_key(key) == #[trigger] right.contains_key(key) && (
    left.contains_key(key) ==> left[key] == right[key]) by {
        assert(left.contains_key(key) == entries.contains_key(path + key));
    }
    assert(left =~= right);
    match existing {
        Some((held_path, value)) => {
            lemma_starts_with(held_path, path);
            assert(path + held_path.skip(path.len() as int) == held_path);
        },
        None => {},
    }
}

/// The keys of a subtree part behind what the lowest write, the highest and the entry it already
/// held all share.
pub(crate) proof fn lemma_built_split(
    changes: Seq<Change>,
    rlps: Seq<Seq<u8>>,
    depth: nat,
    existing: Option<(Seq<u8>, Seq<u8>)>,
    first: int,
    last: int,
) -> (shared: nat)
    requires
        delimited(changes, rlps, depth, existing, first, last),
    ensures
        shared == shared_by_all(
            key_from(changes[first], depth),
            key_from(changes[last], depth),
            held_path_of(existing),
        ),
        shared < 64 - depth,
        ({
            let path = key_from(changes[first], depth).subrange(0, shared as int);
            let entries = overlay(held_entries_of(existing), change_map(changes, rlps, depth));
            let middle = changes.subrange(first, last + 1);
            let inner = change_map(middle, rlps, depth + shared);
            &&& path.len() == shared
            &&& is_split(entries, path)
            &&& in_order(middle)
            &&& agree(middle, depth + shared)
            &&& below(entries, path) == overlay(below(held_entries_of(existing), path), inner)
            &&& existing matches Some((held_path, value)) ==> starts_with(held_path, path)
                && !inner.contains_key(held_path.skip(shared as int))
        }),
{
    let shared = lemma_built_parts(changes, rlps, depth, existing, first, last);
    let (low, high) = (key_from(changes[first], depth), key_from(changes[last], depth));
    let path = low.subrange(0, shared as int);
    let map = change_map(changes, rlps, depth);
    let entries = overlay(held_entries_of(existing), map);
    lemma_built_shares(changes, depth, first, last, path);
    lemma_built_below(changes, rlps, depth, existing, first, last, path);
    lemma_change_at(changes, rlps, depth, first);
    lemma_change_at(changes, rlps, depth, last);
    assert(entries.contains_key(low));
    assert(entries.contains_key(high));
    if existing is Some {
        assert(entries.contains_key(existing->Some_0.0));
    }
    assert forall|key: Seq<u8>| #[trigger] entries.contains_key(key) implies starts_with(
        key,
        path,
    ) by {
        if map.contains_key(key) {
            let i = lemma_change_of(changes, rlps, depth, key);
            assert(changes[i].1 is Some);
            assert(starts_with(key_from(changes[i], depth), path));
        }
    }
    shared
}

/// Sequences alike for some way are alike for less.
pub(crate) proof fn lemma_subrange_shorter(left: Seq<u8>, right: Seq<u8>, shared: nat, shorter: nat)
    requires
        shorter <= shared <= left.len(),
        shared <= right.len(),
        left.subrange(0, shared as int) == right.subrange(0, shared as int),
    ensures
        left.subrange(0, shorter as int) == right.subrange(0, shorter as int),
{
    assert(left.subrange(0, shorter as int) =~= left.subrange(0, shared as int).subrange(
        0,
        shorter as int,
    ));
    assert(right.subrange(0, shorter as int) =~= right.subrange(0, shared as int).subrange(
        0,
        shorter as int,
    ));
}

/// The changes that share a nibble are the ones below it.
pub(crate) proof fn lemma_nibble_run(
    changes: Seq<Change>,
    rlps: Seq<Seq<u8>>,
    depth: nat,
    nibble: u8,
    start: int,
    end: int,
)
    requires
        in_order(changes),
        agree(changes, depth),
        depth < 64,
        0 <= start <= end <= changes.len(),
        forall|i: int|
            0 <= i < changes.len() ==> (start <= i < end <==> unpacked((#[trigger] changes[i]).0@)[depth as int]
                == nibble),
    ensures
        in_order(changes.subrange(start, end)),
        agree(changes.subrange(start, end), depth + 1),
        change_map(changes.subrange(start, end), rlps, depth + 1) == below(
            change_map(changes, rlps, depth),
            seq![nibble],
        ),
{
    assert forall|i: int| 0 <= i < changes.len() implies (start <= i < end <==> starts_with(
        key_from(#[trigger] changes[i], depth),
        seq![nibble],
    )) by {
        let key = key_from(changes[i], depth);
        lemma_unpacked(changes[i].0@);
        assert(key[0] == unpacked(changes[i].0@)[depth as int]);
        if key[0] == nibble {
            assert(key.subrange(0, 1) =~= seq![nibble]);
        } else {
            assert(key.subrange(0, 1)[0] != seq![nibble][0]);
        }
    }
    lemma_change_run(changes, rlps, depth, seq![nibble], start, end);
}

/// A nibble no key holds has no change below it.
pub(crate) proof fn lemma_untouched(changes: Seq<Change>, rlps: Seq<Seq<u8>>, depth: nat, nibble: u8)
    requires
        depth < 64,
        forall|i: int|
            0 <= i < changes.len() ==> unpacked((#[trigger] changes[i]).0@)[depth as int] != nibble,
    ensures
        no_keys(below(change_map(changes, rlps, depth), seq![nibble])),
        !writes_below(change_map(changes, rlps, depth), nibble),
{
    let map = change_map(changes, rlps, depth);
    let inner = below(map, seq![nibble]);
    assert forall|key: Seq<u8>| !inner.contains_key(key) by {
        if inner.contains_key(key) {
            let i = lemma_change_of(changes, rlps, depth, seq![nibble] + key);
            assert((seq![nibble] + key)[0] == nibble);
        }
    }
    assert forall|key: Seq<u8>| !written(inner).contains_key(key) by {
        assert(!inner.contains_key(key));
    }
}

/// The entry a subtree already held is handed down where its path takes the nibble.
pub(crate) proof fn lemma_existing_below(
    existing: Option<(Seq<u8>, Seq<u8>)>,
    existing_below: Option<(Seq<u8>, Seq<u8>)>,
    nibble: u8,
    inner: Map<Seq<u8>, Option<Seq<u8>>>,
)
    requires
        existing matches Some((path, value)) ==> path.len() > 0 && !inner.contains_key(path),
        match existing {
            Some((path, value)) => if path[0] == nibble {
                existing_below == Some((path.skip(1), value))
            } else {
                existing_below is None
            },
            None => existing_below is None,
        },
    ensures
        held_entries_of(existing_below) == below(held_entries_of(existing), seq![nibble]),
        existing_below matches Some((path, value)) ==> !below(inner, seq![nibble]).contains_key(
            path,
        ),
{
    let outer = below(held_entries_of(existing), seq![nibble]);
    match existing {
        Some((path, value)) => {
            lemma_below_entry(path, value, seq![nibble]);
            if path[0] == nibble {
                assert(path.subrange(0, 1) =~= seq![nibble]);
                assert(seq![nibble] + path.skip(1) =~= path);
            } else {
                assert(path.subrange(0, 1)[0] != seq![nibble][0]);
                assert(outer =~= Map::empty());
            }
        },
        None => {
            assert(outer =~= Map::empty());
        },
    }
}

/// Once every nibble a write reaches holds its subtree and the entry already there stands alone
/// where no write reaches it, the items are the ones the trie has.
pub(crate) proof fn lemma_built_items(
    existing: Option<(Seq<u8>, Seq<u8>)>,
    inner: Map<Seq<u8>, Option<Seq<u8>>>,
    entries: Map<Seq<u8>, Seq<u8>>,
    looped: Seq<Seq<u8>>,
    items: Seq<Seq<u8>>,
    rest: nat,
)
    requires
        entries == overlay(held_entries_of(existing), inner),
        existing matches Some((path, value)) ==> {
            &&& is_path(path)
            &&& path.len() > 0
            &&& !inner.contains_key(path)
        },
        looped == run_items(inner, entries, rest, 16),
        forall|n: u8|
            n < 16 && #[trigger] writes_below(inner, n) ==> looped[n as int] != empty_rlp(),
        items == match existing {
            Some((path, value)) => if looped[path[0] as int] == empty_rlp() {
                looped.update(path[0] as int, reference_of(leaf_rlp(path.skip(1), value)))
            } else {
                looped
            },
            None => looped,
        },
    ensures
        items.len() == 16,
        forall|n: u8|
            n < 16 ==> #[trigger] items[n as int] == reference_of(
                trie_rlp(below(entries, seq![n]), rest),
            ),
{
    if existing is Some {
        assert(existing->Some_0.0[0] < 16);
    }
    assert forall|n: u8| n < 16 implies #[trigger] items[n as int] == reference_of(
        trie_rlp(below(entries, seq![n]), rest),
    ) by {
        let held_entries = held_entries_of(existing);
        let sub = below(entries, seq![n]);
        let sub_held = below(held_entries, seq![n]);
        let sub_inner = below(inner, seq![n]);
        lemma_below_overlay(held_entries, inner, seq![n]);
        let existing_below = match existing {
            Some((path, value)) => if path[0] == n {
                Some((path.skip(1), value))
            } else {
                None
            },
            None => None,
        };
        lemma_existing_below(existing, existing_below, n, inner);
        assert(looped[n as int] == if writes_below(inner, n) {
            reference_of(trie_rlp(below(entries, seq![n]), rest))
        } else {
            empty_rlp()
        });
        if !writes_below(inner, n) {
            assert forall|key: Seq<u8>| #[trigger] sub_inner.contains_key(key) implies sub_inner[key] is None
                && !sub_held.contains_key(key) by {
                assert(!written(sub_inner).contains_key(key));
            }
            lemma_overlay_nothing(sub_held, sub_inner);
            match existing_below {
                Some((tail, value)) => {
                    lemma_trie_leaf(sub, rest, tail);
                },
                None => {
                    lemma_trie_empty(sub, rest);
                    assert(reference_of(empty_rlp()) == empty_rlp());
                },
            }
        }
    }
}

/// A path a key follows from a depth is one it starts with there.
pub(crate) proof fn lemma_follows(change: Change, depth: nat, path: Seq<u8>)
    requires
        depth <= 64,
    ensures
        follows(unpacked(change.0@), depth as int, path) == starts_with(
            key_from(change, depth),
            path,
        ),
{
    let key = unpacked(change.0@);
    lemma_unpacked(change.0@);
    if depth + path.len() <= 64 {
        assert(key.subrange(depth as int, (depth + path.len()) as int) =~= key.skip(depth as int).subrange(
            0,
            path.len() as int,
        ));
    }
}

/// Changes that all start with a path are the ones below it.
pub(crate) proof fn lemma_below_all(changes: Seq<Change>, rlps: Seq<Seq<u8>>, depth: nat, path: Seq<u8>)
    requires
        in_order(changes),
        agree(changes, depth),
        changes.len() > 0,
        depth + path.len() <= 64,
        all_start_with(change_map(changes, rlps, depth), path),
    ensures
        agree(changes, depth + path.len()),
        change_map(changes, rlps, depth + path.len()) == below(
            change_map(changes, rlps, depth),
            path,
        ),
{
    lemma_all_start_with(changes, rlps, depth, path);
    lemma_change_run(changes, rlps, depth, path, 0, changes.len() as int);
    assert(changes.subrange(0, changes.len() as int) =~= changes);
}

/// What the lowest key, the highest and a path share is what every key shares with the path.
pub(crate) proof fn lemma_agreed_by_all(changes: Seq<Change>, rlps: Seq<Seq<u8>>, depth: nat, path: Seq<u8>)
    requires
        in_order(changes),
        agree(changes, depth),
        depth <= 64,
        changes.len() > 0,
        depth + path.len() <= 64,
        !all_start_with(change_map(changes, rlps, depth), path),
    ensures
        shared_by_all(
            key_from(changes[0], depth),
            key_from(changes[changes.len() - 1], depth),
            Some(path),
        ) == agreed_len(change_map(changes, rlps, depth), path),
        agreed_len(change_map(changes, rlps, depth), path) < path.len(),
        all_start_with(
            change_map(changes, rlps, depth),
            path.subrange(0, agreed_len(change_map(changes, rlps, depth), path) as int),
        ),
{
    let map = change_map(changes, rlps, depth);
    let (low, high) = (
        key_from(changes[0], depth),
        key_from(changes[changes.len() - 1], depth),
    );
    lemma_unpacked(changes[0].0@);
    lemma_unpacked(changes[changes.len() - 1].0@);
    let agreed = agreed_len(map, path);
    lemma_agreed_len(map, path);
    let (l, h) = (shared_len(low, path), shared_len(high, path));
    lemma_shared_len(low, path);
    lemma_shared_len(high, path);
    lemma_shared_len(low, high);
    lemma_all_start_with(changes, rlps, depth, path.subrange(0, agreed as int));
    lemma_all_start_with(changes, rlps, depth, path.subrange(0, agreed as int + 1));
    lemma_starts_shared(low, path, agreed as int);
    lemma_starts_shared(high, path, agreed as int);
    lemma_starts_shared(low, path, agreed as int + 1);
    lemma_starts_shared(high, path, agreed as int + 1);
    let both = if l <= h { l } else { h };
    lemma_starts_shared(low, path, both as int);
    lemma_starts_shared(high, path, both as int);
    assert(low.subrange(0, both as int) == high.subrange(0, both as int));
    if shared_len(low, high) < both {
        let at = shared_len(low, high) as int;
        assert(low.subrange(0, both as int)[at] == low[at]);
        assert(high.subrange(0, both as int)[at] == high[at]);
    }
}

/// A key starts with as much of a path as the two share.
pub(crate) proof fn lemma_starts_shared(key: Seq<u8>, path: Seq<u8>, count: int)
    requires
        0 <= count <= path.len(),
    ensures
        starts_with(key, path.subrange(0, count)) <==> count <= shared_len(key, path),
{
    lemma_shared_len(key, path);
    let shared = shared_len(key, path) as int;
    if count <= shared {
        lemma_subrange_shorter(key, path, shared as nat, count as nat);
    } else if starts_with(key, path.subrange(0, count)) {
        assert(key.subrange(0, count)[shared] == key[shared]);
        assert(path.subrange(0, count)[shared] == path[shared]);
    }
}

/// What is left of an extension below the nibble it is split on is no wider than the frame counts.
proof fn lemma_residual_len(tail: Seq<u8>, child: Seq<u8>, depth: int)
    requires
        is_path(tail),
        0 <= depth,
        0 < tail.len() <= 63 - depth,
        child.len() <= MAX_ITEM,
    ensures
        extension_rlp(tail, child).len() <= residual_bytes(depth),
{
    lemma_extension_len(tail, child);
}

/// What a split writes of an extension is no more than its frame counts.
pub(crate) proof fn lemma_residual_taken(
    path: Seq<u8>,
    shared: nat,
    child: Seq<u8>,
    depth: int,
    roomy: bool,
)
    requires
        is_path(path),
        0 <= depth,
        shared < path.len(),
        depth + path.len() <= 64,
        roomy ==> depth + path.len() < 64,
        child.len() <= MAX_ITEM,
    ensures
        shared + 1 < path.len() ==> depth + shared < 63 && extension_rlp(
            path.skip(shared as int + 1),
            child,
        ).len() + MAX_ITEM <= split_bytes(depth + shared, roomy),
{
    if shared + 1 < path.len() {
        let tail = path.skip(shared as int + 1);
        if roomy {
            lemma_residual_len(tail, child, depth + shared + 1);
        } else {
            lemma_residual_len(tail, child, depth + shared);
        }
    }
}

/// A frame that splits an extension holds what is left of it beside the branch.
pub(crate) proof fn lemma_split_budget(depth: int, shared: int, roomy: bool)
    requires
        0 <= depth,
        0 <= shared,
        depth + shared < 64,
    ensures
        branch_descent_bytes(depth + shared, roomy) <= descent_bytes(depth + shared, roomy),
        depth + shared < 63 ==> split_bytes(depth + shared, roomy) + branch_descent_bytes(
            depth + shared,
            roomy,
        ) <= descent_bytes(depth + shared, roomy),
        shared > 0 ==> descent_bytes(depth + shared, roomy) + MAX_LEAF_RLP <= descent_bytes(
            depth,
            roomy,
        ),
{
    lemma_descent_bytes(depth + shared, 64, roomy);
    if shared > 0 {
        lemma_descent_bytes(depth, depth + shared, roomy);
    }
}

/// What one change does to its key.
pub(crate) proof fn lemma_one(change: Change, rlps: Seq<Seq<u8>>, depth: nat)
    requires
        depth <= 64,
    ensures
        in_order(seq![change]),
        agree(seq![change], depth),
        only_key(change_map(seq![change], rlps, depth), key_from(change, depth)),
        is_single(change_map(seq![change], rlps, depth)),
        the_key(change_map(seq![change], rlps, depth)) == key_from(change, depth),
        change_map(seq![change], rlps, depth)[key_from(change, depth)] == change_value(
            change,
            rlps,
        ),
        has_removal(change_map(seq![change], rlps, depth)) == (change.1 is None),
        forall|path: Seq<u8>| #[trigger]
            all_start_with(change_map(seq![change], rlps, depth), path) == starts_with(
                key_from(change, depth),
                path,
            ),
{
    let changes = seq![change];
    let map = change_map(changes, rlps, depth);
    lemma_change_count(changes, rlps, depth);
    lemma_any_removal(changes, rlps, depth);
    assert(changes[0] == change);
    assert(map.contains_key(key_from(change, depth)));
    assert forall|path: Seq<u8>| #[trigger] all_start_with(map, path) == starts_with(
        key_from(change, depth),
        path,
    ) by {
        lemma_all_start_with(changes, rlps, depth, path);
    }
}

/// One change below a path its key starts with.
pub(crate) proof fn lemma_one_below(change: Change, rlps: Seq<Seq<u8>>, depth: nat, path: Seq<u8>)
    requires
        depth + path.len() <= 64,
        starts_with(key_from(change, depth), path),
    ensures
        below(change_map(seq![change], rlps, depth), path) == change_map(
            seq![change],
            rlps,
            depth + path.len(),
        ),
{
    lemma_one(change, rlps, depth);
    lemma_below_all(seq![change], rlps, depth, path);
}

/// What one change leaves of entries that hold no other key.
pub(crate) proof fn lemma_one_written(
    change: Change,
    rlps: Seq<Seq<u8>>,
    depth: nat,
    entries: Map<Seq<u8>, Seq<u8>>,
)
    requires
        depth <= 64,
        forall|key: Seq<u8>| #[trigger]
            entries.contains_key(key) ==> key == key_from(change, depth),
    ensures
        trie_rlp(
            overlay(entries, change_map(seq![change], rlps, depth)),
            (64 - depth) as nat,
        ) == match change.1 {
            Some(index) => leaf_rlp(key_from(change, depth), rlps[index as int]),
            None => empty_rlp(),
        },
{
    lemma_one(change, rlps, depth);
    let map = change_map(seq![change], rlps, depth);
    let after = overlay(entries, map);
    let key = key_from(change, depth);
    assert(map.contains_key(key));
    match change.1 {
        Some(index) => {
            assert(only_key(after, key));
            lemma_trie_leaf(after, (64 - depth) as nat, key);
        },
        None => {
            assert forall|other: Seq<u8>| !after.contains_key(other) by {
                if map.contains_key(other) {
                    assert(other == key);
                }
            }
            lemma_trie_empty(after, (64 - depth) as nat);
        },
    }
}

/// Where one key leaves a path part way along is what the two share.
pub(crate) proof fn lemma_one_parts(change: Change, rlps: Seq<Seq<u8>>, depth: nat, path: Seq<u8>)
    requires
        depth <= 64,
        path.len() > 0,
        !starts_with(key_from(change, depth), path),
    ensures
        depth + path.len() <= 64 ==> {
            &&& agreed_len(change_map(seq![change], rlps, depth), path) == shared_len(
                path,
                key_from(change, depth),
            )
            &&& shared_len(path, key_from(change, depth)) < path.len()
            &&& shared_len(path, key_from(change, depth)) < 64 - depth
        },
{
    let map = change_map(seq![change], rlps, depth);
    let key = key_from(change, depth);
    lemma_one(change, rlps, depth);
    lemma_unpacked(change.0@);
    if depth + path.len() <= 64 {
        lemma_shared_len(path, key);
        lemma_shared_len(key, path);
        let shared = shared_len(path, key);
        if shared == path.len() {
            assert(path.subrange(0, shared as int) =~= path);
        }
        assert(starts_with(key, path.subrange(0, shared as int)));
        assert(!starts_with(key, path.subrange(0, shared as int + 1))) by {
            if starts_with(key, path.subrange(0, shared as int + 1)) {
                assert(key.subrange(0, shared as int + 1)[shared as int] == key[shared as int]);
                assert(path.subrange(0, shared as int + 1)[shared as int] == path[shared as int]);
            }
        }
        lemma_agreed_is(map, path, shared);
    }
}

/// A key written beside one entry parts from it in a branch.
pub(crate) proof fn lemma_two_entries(
    change: Change,
    rlps: Seq<Seq<u8>>,
    depth: nat,
    path: Seq<u8>,
    value: Seq<u8>,
)
    requires
        depth <= 64,
        path.len() == 64 - depth,
        is_path(path),
        path != key_from(change, depth),
        change.1 is Some,
    ensures
        ({
            let key = key_from(change, depth);
            let shared = shared_len(path, key) as int;
            trie_rlp(
                overlay(entry(path, value), change_map(seq![change], rlps, depth)),
                (64 - depth) as nat,
            ) == branch_under_rlp(
                key.subrange(0, shared),
                absent_items().update(
                    path[shared] as int,
                    reference_of(leaf_rlp(path.skip(shared + 1), value)),
                ).update(
                    key[shared] as int,
                    reference_of(
                        leaf_rlp(key.skip(shared + 1), rlps[change.1->Some_0 as int]),
                    ),
                ),
            )
        }),
{
    lemma_one(change, rlps, depth);
    lemma_unpacked(change.0@);
    let key = key_from(change, depth);
    let len = (64 - depth) as nat;
    let written_value = rlps[change.1->Some_0 as int];
    let entries = overlay(entry(path, value), change_map(seq![change], rlps, depth));
    lemma_shared_len(path, key);
    let shared = shared_len(path, key) as int;
    let front = key.subrange(0, shared);
    assert(change_map(seq![change], rlps, depth).contains_key(key));
    assert forall|other: Seq<u8>| #[trigger] entries.contains_key(other) <==> other == path || other
        == key by {}
    assert(entries.contains_key(path) && entries.contains_key(key));
    assert(parts(front, path, key));
    assert(is_split(entries, front));
    lemma_trie_split(entries, len, front);
    let inner = below(entries, front);
    let rest = (len - shared - 1) as nat;
    lemma_trie_items(inner, (len - shared) as nat);
    lemma_starts_with(path, front);
    lemma_starts_with(key, front);
    let items = absent_items().update(
        path[shared] as int,
        reference_of(leaf_rlp(path.skip(shared + 1), value)),
    ).update(
        key[shared] as int,
        reference_of(leaf_rlp(key.skip(shared + 1), written_value)),
    );
    assert(path[shared] < 16 && key[shared] < 16);
    assert forall|n: u8| n < 16 implies #[trigger] trie_items(
        inner,
        (len - shared) as nat,
    )[n as int] == items[n as int] by {
        let sub = below(inner, seq![n]);
        lemma_below_below(entries, front, seq![n]);
        let prefix = front + seq![n];
        assert forall|tail: Seq<u8>| #[trigger] sub.contains_key(tail) <==> (n == path[shared] && tail
            == path.skip(shared + 1)) || (n == key[shared] && tail == key.skip(shared + 1)) by {
            assert(sub.contains_key(tail) == entries.contains_key(prefix + tail));
            lemma_prefixed(path, front, n, tail);
            lemma_prefixed(key, front, n, tail);
        }
        if n == path[shared] {
            lemma_prefixed(path, front, n, path.skip(shared + 1));
            lemma_trie_leaf(sub, rest, path.skip(shared + 1));
        } else if n == key[shared] {
            lemma_prefixed(key, front, n, key.skip(shared + 1));
            lemma_trie_leaf(sub, rest, key.skip(shared + 1));
        } else {
            lemma_trie_empty(sub, rest);
            assert(reference_of(empty_rlp()) == empty_rlp());
        }
    }
    assert forall|i: int| 0 <= i < 16 implies trie_items(inner, (len - shared) as nat)[i]
        == #[trigger] items[i] by {
        assert(trie_items(inner, (len - shared) as nat)[i as u8 as int] == items[i as u8 as int]);
    }
    assert(trie_items(inner, (len - shared) as nat) =~= items);
}

/// A key is a front it starts with, the nibble behind it and the rest.
pub(crate) proof fn lemma_prefixed(key: Seq<u8>, front: Seq<u8>, nibble: u8, tail: Seq<u8>)
    requires
        starts_with(key, front),
        front.len() < key.len(),
    ensures
        front + seq![nibble] + tail == key <==> nibble == key[front.len() as int] && tail
            == key.skip(front.len() as int + 1),
{
    let whole = front + seq![nibble] + tail;
    if whole == key {
        assert(whole[front.len() as int] == nibble);
        assert(whole.skip(front.len() as int + 1) =~= tail);
    }
    if nibble == key[front.len() as int] && tail == key.skip(front.len() as int + 1) {
        assert(key.subrange(0, front.len() as int) == front);
        assert(whole =~= key);
    }
}

/// What a branch frame holds is enough for its children, its items and the branch it closes.
#[verifier::spinoff_prover]
pub(crate) proof fn lemma_branch_budget(depth: int, roomy: bool)
    requires
        0 <= depth < 64,
    ensures
        MAX_BRANCH_RLP + 495 + descent_bytes(depth + 1, roomy) <= branch_descent_bytes(depth, roomy),
        depth < 63 ==> MAX_BRANCH_RLP + 528 + MAX_BRANCH_RLP <= branch_descent_bytes(depth, roomy),
        depth == 63 ==> MAX_BRANCH_RLP + 496 + MAX_GAPPED_BRANCH_RLP <= branch_descent_bytes(depth, roomy),
        528 + MAX_BRANCH_RLP <= branch_descent_bytes(depth, roomy),
        MAX_BRANCH_RLP + 528 <= branch_descent_bytes(depth, roomy),
{
    assert(MAX_BRANCH_RLP == 532);
    assert(BRANCH_CARRY == 1027);
    assert(FRAME_TAIL == 1528);
    assert(LEAF_TAIL == 225);
    if depth < 63 {
        lemma_descent_bytes(depth, depth + 1, roomy);
    }
}

/// A removal where a key has no nibble left leaves nothing.
pub(crate) proof fn lemma_emptied(
    nodes: Map<[u8; 32], Seq<u8>>,
    node_rlp: Seq<u8>,
    run: Seq<Change>,
    rlps: Seq<Seq<u8>>,
)
    requires
        in_order(run),
        agree(run, 64),
        run.len() > 0,
        run[0].1 is None,
    ensures
        updated(nodes, node_rlp, change_map(run, rlps, 64), 0) matches Ok(bytes) ==> bytes
            == empty_rlp(),
{
    lemma_last_nibble_run(run);
    lemma_change_count(run, rlps, 64);
    lemma_unpacked(run[0].0@);
    assert(key_from(run[0], 64) =~= Seq::empty());
    lemma_removed_at_end(nodes, node_rlp, change_map(run, rlps, 64));
}

/// Keys alike in every nibble are one key.
pub(crate) proof fn lemma_last_nibble_run(run: Seq<Change>)
    requires
        in_order(run),
        agree(run, 64),
    ensures
        run.len() <= 1,
{
    if run.len() > 1 {
        lemma_key_order(run, 64, 0, 1);
    }
}

/// A leaf is not the empty node.
pub(crate) proof fn lemma_leaf_filled(path: Seq<u8>, value: Seq<u8>)
    ensures
        leaf_rlp(path, value) != empty_rlp(),
{
    lemma_list_filled(rlp_string(hex_prefix(path, true)) + rlp_string(value));
}

/// A node that is not empty is not referenced as one.
pub(crate) proof fn lemma_reference_filled(node_rlp: Seq<u8>)
    ensures
        reference_of(node_rlp) == empty_rlp() <==> node_rlp == empty_rlp(),
{
    assert(empty_rlp().len() == 1);
}

/// A branch under a path is not the empty node.
pub(crate) proof fn lemma_branch_under_filled(path: Seq<u8>, items: Seq<Seq<u8>>)
    ensures
        branch_under_rlp(path, items) != empty_rlp(),
{
    lemma_list_filled(joined(items, 16) + empty_rlp());
    lemma_list_filled(rlp_string(hex_prefix(path, false)) + reference_of(branch_rlp(items)));
}

} // verus!
