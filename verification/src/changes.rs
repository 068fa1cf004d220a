//! A change set as a descent walks it: ordered by key, and read from the depth the descent is at.

use vstd::prelude::*;

use crate::nibbles::{is_path, nibble_at, unpacked, MAX_NIBBLES};
use crate::trie::{
    all_start_with, below, has_removal, is_single, lemma_starts_with, no_keys, only_key,
    starts_with, the_key,
};

verus! {

/// One key's new value as an index into the change source, or `None` to remove it.
pub type Change = ([u8; 32], Option<u32>);

/// Whether one byte string comes before another of its length, the first byte they part on telling.
pub open spec fn precedes(left: Seq<u8>, right: Seq<u8>) -> bool {
    exists|at: int|
        0 <= at < left.len() && at < right.len() && #[trigger] left[at] < right[at]
            && left.subrange(0, at) == right.subrange(0, at)
}

/// Whether the changes are ordered by key, which leaves every key distinct.
pub open spec fn in_order(changes: Seq<Change>) -> bool {
    forall|i: int, j: int|
        0 <= i < j < changes.len() ==> precedes((#[trigger] changes[i]).0@, (#[trigger] changes[j]).0@)
}

/// Whether every value a change names is one of `count`.
pub open spec fn names_values(changes: Seq<Change>, count: nat) -> bool {
    forall|i: int|
        0 <= i < changes.len() ==> ((#[trigger] changes[i]).1 matches Some(index) ==> index < count)
}

/// The nibbles a change's key carries from `depth`.
pub open spec fn key_from(change: Change, depth: nat) -> Seq<u8> {
    unpacked(change.0@).skip(depth as int)
}

/// Whether every key carries the same nibbles up to `depth`.
pub open spec fn agree(changes: Seq<Change>, depth: nat) -> bool {
    forall|i: int, j: int|
        0 <= i < changes.len() && 0 <= j < changes.len() ==> unpacked(
            (#[trigger] changes[i]).0@,
        ).subrange(0, depth as int) == unpacked((#[trigger] changes[j]).0@).subrange(0, depth as int)
}

/// What a change does to its key.
pub open spec fn change_value(change: Change, values: Seq<Seq<u8>>) -> Option<Seq<u8>> {
    match change.1 {
        Some(index) => Some(values[index as int]),
        None => None,
    }
}

/// Whether the change at `i` is the one of `key`, as far as it is left from `depth`.
pub open spec fn is_change_of(changes: Seq<Change>, depth: nat, key: Seq<u8>, i: int) -> bool {
    0 <= i < changes.len() && key_from(changes[i], depth) == key
}

/// What the changes do to the keys they name, as far as those are left from `depth`.
#[verifier::opaque]
pub open spec fn change_map(changes: Seq<Change>, values: Seq<Seq<u8>>, depth: nat) -> Map<
    Seq<u8>,
    Option<Seq<u8>>,
> {
    Map::new(
        |key: Seq<u8>| exists|i: int| is_change_of(changes, depth, key, i),
        |key: Seq<u8>|
            change_value(changes[choose|i: int| is_change_of(changes, depth, key, i)], values),
    )
}

/// A key is told by its nibbles, of which it has a fixed number.
pub proof fn lemma_unpacked(key: Seq<u8>)
    ensures
        unpacked(key).len() == 2 * key.len(),
        is_path(unpacked(key)),
{
}

/// Byte strings in order are in order nibble by nibble.
pub proof fn lemma_precedes_nibbles(left: Seq<u8>, right: Seq<u8>)
    requires
        precedes(left, right),
        left.len() == right.len(),
    ensures
        precedes(unpacked(left), unpacked(right)),
{
    let at = choose|at: int|
        0 <= at < left.len() && at < right.len() && #[trigger] left[at] < right[at]
            && left.subrange(0, at) == right.subrange(0, at);
    let (l, r) = (unpacked(left), unpacked(right));
    assert forall|i: int| 0 <= i < at implies #[trigger] left[i] == right[i] by {
        assert(left.subrange(0, at)[i] == right.subrange(0, at)[i]);
    }
    if left[at] / 16 < right[at] / 16 {
        assert(l[2 * at] < r[2 * at]);
        assert(l.subrange(0, 2 * at) =~= r.subrange(0, 2 * at));
    } else {
        assert(l[2 * at + 1] < r[2 * at + 1]);
        assert(l.subrange(0, 2 * at + 1) =~= r.subrange(0, 2 * at + 1));
    }
}

/// A key between two others shares with them what those two share.
proof fn lemma_squeezed(low: Seq<u8>, key: Seq<u8>, high: Seq<u8>, shared: int)
    requires
        low == key || precedes(low, key),
        key == high || precedes(key, high),
        low.len() == key.len() == high.len(),
        0 <= shared <= low.len(),
        low.subrange(0, shared) == high.subrange(0, shared),
    ensures
        key.subrange(0, shared) == low.subrange(0, shared),
{
    if low != key && key != high {
        let x = choose|at: int|
            0 <= at < low.len() && at < key.len() && #[trigger] low[at] < key[at] && low.subrange(
                0,
                at,
            ) == key.subrange(0, at);
        let y = choose|at: int|
            0 <= at < key.len() && at < high.len() && #[trigger] key[at] < high[at] && key.subrange(
                0,
                at,
            ) == high.subrange(0, at);
        if x < shared {
            assert(low.subrange(0, shared)[x] == low[x]);
            assert(high.subrange(0, shared)[x] == high[x]);
            if x < y {
                assert(key.subrange(0, y)[x] == key[x]);
                assert(high.subrange(0, y)[x] == high[x]);
            } else if y < x {
                assert(low.subrange(0, x)[y] == low[y]);
                assert(key.subrange(0, x)[y] == key[y]);
                assert(low.subrange(0, shared)[y] == low[y]);
                assert(high.subrange(0, shared)[y] == high[y]);
            }
            assert(false);
        } else {
            assert forall|i: int| 0 <= i < shared implies key[i] == low[i] by {
                assert(low.subrange(0, x)[i] == key.subrange(0, x)[i]);
            }
            assert(key.subrange(0, shared) =~= low.subrange(0, shared));
        }
    }
}

/// Every key between the first and the last of a run shares with them what those two share.
pub proof fn lemma_run_shares(changes: Seq<Change>, first: int, last: int, at: int, shared: int)
    requires
        in_order(changes),
        0 <= first <= at <= last < changes.len(),
        0 <= shared <= 64,
        unpacked(changes[first].0@).subrange(0, shared) == unpacked(changes[last].0@).subrange(
            0,
            shared,
        ),
    ensures
        unpacked(changes[at].0@).subrange(0, shared) == unpacked(changes[first].0@).subrange(
            0,
            shared,
        ),
{
    if first < at {
        lemma_precedes_nibbles(changes[first].0@, changes[at].0@);
    }
    if at < last {
        lemma_precedes_nibbles(changes[at].0@, changes[last].0@);
    }
    lemma_squeezed(
        unpacked(changes[first].0@),
        unpacked(changes[at].0@),
        unpacked(changes[last].0@),
        shared,
    );
}

/// Keys that agree up to a depth are in order by what they carry from it.
pub proof fn lemma_key_order(changes: Seq<Change>, depth: nat, i: int, j: int)
    requires
        in_order(changes),
        agree(changes, depth),
        depth <= 64,
        0 <= i < j < changes.len(),
    ensures
        depth < 64,
        key_from(changes[i], depth) != key_from(changes[j], depth),
        precedes(key_from(changes[i], depth), key_from(changes[j], depth)),
        key_from(changes[i], depth)[0] <= key_from(changes[j], depth)[0],
        unpacked(changes[i].0@)[depth as int] <= unpacked(changes[j].0@)[depth as int],
{
    let (left, right) = (unpacked(changes[i].0@), unpacked(changes[j].0@));
    lemma_precedes_nibbles(changes[i].0@, changes[j].0@);
    let at = choose|at: int|
        0 <= at < left.len() && at < right.len() && #[trigger] left[at] < right[at]
            && left.subrange(0, at) == right.subrange(0, at);
    let d = depth as int;
    if at < d {
        assert(left.subrange(0, d)[at] == right.subrange(0, d)[at]);
    }
    assert(left.skip(d)[at - d] < right.skip(d)[at - d]);
    assert(left.skip(d).subrange(0, at - d) =~= left.subrange(0, at).skip(d));
    assert(right.skip(d).subrange(0, at - d) =~= right.subrange(0, at).skip(d));
    if d < at {
        assert(left.subrange(0, at)[d] == right.subrange(0, at)[d]);
    }
}

/// What a change does is what the map of them says of its key.
pub proof fn lemma_change_at(changes: Seq<Change>, values: Seq<Seq<u8>>, depth: nat, i: int)
    requires
        in_order(changes),
        agree(changes, depth),
        depth <= 64,
        0 <= i < changes.len(),
    ensures
        change_map(changes, values, depth).contains_key(key_from(changes[i], depth)),
        change_map(changes, values, depth)[key_from(changes[i], depth)] == change_value(
            changes[i],
            values,
        ),
{
    reveal(change_map);
    let key = key_from(changes[i], depth);
    assert(is_change_of(changes, depth, key, i));
    let j = choose|j: int| is_change_of(changes, depth, key, j);
    assert(is_change_of(changes, depth, key, j));
    if i < j {
        lemma_key_order(changes, depth, i, j);
    } else if j < i {
        lemma_key_order(changes, depth, j, i);
    }
}

/// Every key the map of changes names is a change's.
pub proof fn lemma_change_of(
    changes: Seq<Change>,
    values: Seq<Seq<u8>>,
    depth: nat,
    key: Seq<u8>,
) -> (i: int)
    requires
        change_map(changes, values, depth).contains_key(key),
    ensures
        0 <= i < changes.len(),
        key_from(changes[i], depth) == key,
        change_map(changes, values, depth)[key] == change_value(changes[i], values),
{
    reveal(change_map);
    let i = choose|i: int| is_change_of(changes, depth, key, i);
    assert(is_change_of(changes, depth, key, i));
    i
}

/// The changes of a run that holds every key starting with `path` are the ones below it.
pub proof fn lemma_change_run(
    changes: Seq<Change>,
    values: Seq<Seq<u8>>,
    depth: nat,
    path: Seq<u8>,
    start: int,
    end: int,
)
    requires
        in_order(changes),
        agree(changes, depth),
        depth + path.len() <= 64,
        0 <= start <= end <= changes.len(),
        forall|i: int|
            0 <= i < changes.len() ==> (start <= i < end <==> starts_with(
                key_from(#[trigger] changes[i], depth),
                path,
            )),
    ensures
        in_order(changes.subrange(start, end)),
        agree(changes.subrange(start, end), depth + path.len()),
        change_map(changes.subrange(start, end), values, depth + path.len()) == below(
            change_map(changes, values, depth),
            path,
        ),
{
    reveal(change_map);
    let run = changes.subrange(start, end);
    let deeper = depth + path.len();
    let outer = change_map(changes, values, depth);
    let inner = change_map(run, values, deeper);
    assert forall|i: int, j: int| 0 <= i < run.len() && 0 <= j < run.len() implies unpacked(
        (#[trigger] run[i]).0@,
    ).subrange(0, deeper as int) == unpacked((#[trigger] run[j]).0@).subrange(0, deeper as int) by {
        let (left, right) = (unpacked(run[i].0@), unpacked(run[j].0@));
        assert(run[i] == changes[start + i] && run[j] == changes[start + j]);
        assert(left.subrange(0, depth as int) == right.subrange(0, depth as int));
        assert(left.subrange(0, deeper as int) =~= left.subrange(0, depth as int) + path) by {
            assert(left.subrange(depth as int, deeper as int) =~= left.skip(
                depth as int,
            ).subrange(0, path.len() as int));
        }
        assert(right.subrange(0, deeper as int) =~= right.subrange(0, depth as int) + path) by {
            assert(right.subrange(depth as int, deeper as int) =~= right.skip(
                depth as int,
            ).subrange(0, path.len() as int));
        }
    }
    assert forall|i: int| 0 <= i < changes.len() implies #[trigger] key_from(changes[i], deeper)
        == key_from(changes[i], depth).skip(path.len() as int) by {
        assert(key_from(changes[i], deeper) =~= key_from(changes[i], depth).skip(
            path.len() as int,
        ));
    }
    assert forall|key: Seq<u8>| inner.contains_key(key) == #[trigger] below(outer, path).contains_key(
        key,
    ) && (inner.contains_key(key) ==> inner[key] == below(outer, path)[key]) by {
        lemma_starts_with(key, path);
        if inner.contains_key(key) {
            let i = choose|i: int| is_change_of(run, deeper, key, i);
            assert(is_change_of(run, deeper, key, i));
            assert(run[i] == changes[start + i]);
            lemma_starts_with(key_from(changes[start + i], depth), path);
            assert(key_from(changes[start + i], depth) == path + key);
            lemma_change_at(changes, values, depth, start + i);
            lemma_change_at(run, values, deeper, i);
        }
        if below(outer, path).contains_key(key) {
            let i = choose|i: int| is_change_of(changes, depth, path + key, i);
            assert(is_change_of(changes, depth, path + key, i));
            assert(starts_with(key_from(changes[i], depth), path));
            assert(run[i - start] == changes[i]);
            assert(is_change_of(run, deeper, key, i - start));
        }
    }
    assert(inner =~= below(outer, path));
}

/// A single change is of a single key, and more than one of more than one.
pub proof fn lemma_change_count(changes: Seq<Change>, values: Seq<Seq<u8>>, depth: nat)
    requires
        in_order(changes),
        agree(changes, depth),
        depth <= 64,
    ensures
        changes.len() == 1 ==> {
            &&& only_key(change_map(changes, values, depth), key_from(changes[0], depth))
            &&& is_single(change_map(changes, values, depth))
            &&& the_key(change_map(changes, values, depth)) == key_from(changes[0], depth)
            &&& change_map(changes, values, depth)[key_from(changes[0], depth)] == change_value(
                changes[0],
                values,
            )
        },
        changes.len() > 1 ==> !is_single(change_map(changes, values, depth)) && depth < 64,
        changes.len() > 0 ==> !no_keys(change_map(changes, values, depth)),
        changes.len() == 0 ==> no_keys(change_map(changes, values, depth)),
{
    reveal(change_map);
    let map = change_map(changes, values, depth);
    if changes.len() == 1 {
        let key = key_from(changes[0], depth);
        lemma_change_at(changes, values, depth, 0);
        assert(only_key(map, key));
        let other = the_key(map);
        assert(only_key(map, other));
        assert(map.contains_key(key));
    } else if changes.len() > 1 {
        lemma_change_at(changes, values, depth, 0);
        lemma_change_at(changes, values, depth, 1);
        lemma_key_order(changes, depth, 0, 1);
        assert forall|key: Seq<u8>| !only_key(map, key) by {
            assert(map.contains_key(key_from(changes[0], depth)));
            assert(map.contains_key(key_from(changes[1], depth)));
        }
    }
}

/// A path the first and the last key both start with is one they all start with.
pub proof fn lemma_all_start_with(
    changes: Seq<Change>,
    values: Seq<Seq<u8>>,
    depth: nat,
    path: Seq<u8>,
)
    requires
        in_order(changes),
        agree(changes, depth),
        depth <= 64,
        changes.len() > 0,
    ensures
        all_start_with(change_map(changes, values, depth), path) <==> starts_with(
            key_from(changes[0], depth),
            path,
        ) && starts_with(key_from(changes[changes.len() - 1], depth), path),
        all_start_with(change_map(changes, values, depth), path) ==> forall|i: int|
            0 <= i < changes.len() ==> starts_with(key_from(#[trigger] changes[i], depth), path),
{
    reveal(change_map);
    let map = change_map(changes, values, depth);
    let last = changes.len() - 1;
    lemma_change_at(changes, values, depth, 0);
    lemma_change_at(changes, values, depth, last);
    if starts_with(key_from(changes[0], depth), path) && starts_with(
        key_from(changes[last], depth),
        path,
    ) {
        let shared = depth + path.len();
        let (low, high) = (unpacked(changes[0].0@), unpacked(changes[last].0@));
        assert(low.subrange(0, shared as int) =~= low.subrange(0, depth as int) + path) by {
            assert(low.subrange(depth as int, shared as int) =~= low.skip(depth as int).subrange(
                0,
                path.len() as int,
            ));
        }
        assert(high.subrange(0, shared as int) =~= high.subrange(0, depth as int) + path) by {
            assert(high.subrange(depth as int, shared as int) =~= high.skip(depth as int).subrange(
                0,
                path.len() as int,
            ));
        }
        assert forall|i: int| 0 <= i < changes.len() implies starts_with(
            key_from(#[trigger] changes[i], depth),
            path,
        ) by {
            lemma_run_shares(changes, 0, last, i, shared as int);
            let key = unpacked(changes[i].0@);
            assert(key.skip(depth as int).subrange(0, path.len() as int) =~= key.subrange(
                0,
                shared as int,
            ).skip(depth as int));
            assert((low.subrange(0, depth as int) + path).skip(depth as int) =~= path);
        }
        assert forall|key: Seq<u8>| #[trigger] map.contains_key(key) implies starts_with(
            key,
            path,
        ) by {
            let i = choose|i: int| is_change_of(changes, depth, key, i);
            assert(is_change_of(changes, depth, key, i));
            assert(starts_with(key_from(changes[i], depth), path));
        }
    }
    if all_start_with(map, path) {
        assert(map.contains_key(key_from(changes[0], depth)));
        assert(map.contains_key(key_from(changes[last], depth)));
    }
}

/// Whether any change removes its key.
pub open spec fn any_removal(changes: Seq<Change>) -> bool {
    exists|i: int| 0 <= i < changes.len() && (#[trigger] changes[i]).1 is None
}

/// A removal among the changes is one among what they do.
pub proof fn lemma_any_removal(changes: Seq<Change>, values: Seq<Seq<u8>>, depth: nat)
    requires
        in_order(changes),
        agree(changes, depth),
        depth <= 64,
    ensures
        any_removal(changes) == has_removal(change_map(changes, values, depth)),
{
    reveal(change_map);
    let map = change_map(changes, values, depth);
    if any_removal(changes) {
        let i = choose|i: int| 0 <= i < changes.len() && (#[trigger] changes[i]).1 is None;
        lemma_change_at(changes, values, depth, i);
        assert(map.contains_key(key_from(changes[i], depth)));
    }
    if has_removal(map) {
        let key = choose|key: Seq<u8>| #[trigger] map.contains_key(key) && map[key] is None;
        let i = choose|i: int| is_change_of(changes, depth, key, i);
        assert(is_change_of(changes, depth, key, i));
        lemma_change_at(changes, values, depth, i);
        assert(changes[i].1 is None);
    }
}

/// Whether any change removes its key.
pub fn has_deletion(changes: &[Change]) -> (found: bool)
    ensures
        found == any_removal(changes@),
{
    let mut at: usize = 0;
    while at < changes.len()
        invariant
            at <= changes@.len(),
            forall|i: int| 0 <= i < at ==> (#[trigger] changes@[i]).1 is Some,
        decreases changes.len() - at,
    {
        if changes[at].1.is_none() {
            assert(changes@[at as int].1 is None);
            return true;
        }
        at = at + 1;
    }
    false
}

/// Whether any change writes its key.
pub open spec fn any_write(changes: Seq<Change>) -> bool {
    exists|i: int| 0 <= i < changes.len() && (#[trigger] changes[i]).1 is Some
}

/// A change set that removes nothing writes every key it names, and one that writes nothing removes
/// every one.
pub proof fn law_removals_and_writes(changes: Seq<Change>)
    ensures
        !any_removal(changes) <==> forall|i: int|
            0 <= i < changes.len() ==> (#[trigger] changes[i]).1 is Some,
        !any_write(changes) <==> forall|i: int|
            0 <= i < changes.len() ==> (#[trigger] changes[i]).1 is None,
{
}

/// Whether any change writes its key.
pub fn has_write(changes: &[Change]) -> (found: bool)
    ensures
        found == any_write(changes@),
{
    let mut at: usize = 0;
    while at < changes.len()
        invariant
            at <= changes@.len(),
            forall|i: int| 0 <= i < at ==> (#[trigger] changes@[i]).1 is None,
        decreases changes.len() - at,
    {
        if changes[at].1.is_some() {
            assert(changes@[at as int].1 is Some);
            return true;
        }
        at = at + 1;
    }
    false
}

/// The nibble the key at `from` holds at `depth`, and where the changes sharing it end. Ordered keys
/// leave the nibble non-decreasing, so the changes sharing one are contiguous.
pub fn changes_by_nibble(changes: &[Change], from: usize, depth: usize) -> (run: (u8, usize))
    requires
        in_order(changes@),
        agree(changes@, depth as nat),
        from < changes@.len(),
        depth < MAX_NIBBLES,
    ensures
        run.0 < 16,
        run.0 == unpacked(changes@[from as int].0@)[depth as int],
        from < run.1 <= changes@.len(),
        forall|i: int|
            from <= i < changes@.len() ==> (i < run.1 <==> unpacked((#[trigger] changes@[i]).0@)[depth as int]
                == run.0),
        forall|i: int|
            run.1 <= i < changes@.len() ==> unpacked((#[trigger] changes@[i]).0@)[depth as int]
                > run.0,
{
    let nibble: u8 = nibble_at(&changes[from].0, depth);
    let mut end: usize = from + 1;
    while end < changes.len() && nibble_at(&changes[end].0, depth) == nibble
        invariant
            from < end <= changes@.len(),
            depth < 64,
            nibble == unpacked(changes@[from as int].0@)[depth as int],
            forall|i: int|
                from <= i < end ==> unpacked((#[trigger] changes@[i]).0@)[depth as int] == nibble,
        decreases changes.len() - end,
    {
        end = end + 1;
    }
    assert forall|i: int| end <= i < changes@.len() implies unpacked(
        (#[trigger] changes@[i]).0@,
    )[depth as int] > nibble by {
        lemma_key_order(changes@, depth as nat, from as int, end as int);
        if end < i {
            lemma_key_order(changes@, depth as nat, end as int, i);
        }
    }
    (nibble, end)
}

} // verus!
