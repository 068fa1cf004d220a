//! Each arm of a descent on hand-written tries, and each way one is refused.

use std::collections::BTreeMap;

use alloy_primitives::{keccak256, B256};
use alloy_trie::proof::ProofRetainer;
use alloy_trie::{HashBuilder, Nibbles, EMPTY_ROOT_HASH};
use stateless_validator_reth::changes::{changes_by_nibble, has_deletion};
use stateless_validator_reth::error::{PathError, WitnessDbError};
use stateless_validator_reth::path::PathState;
use stateless_validator_reth::stack::{DynStack, STACK_LEN};
use stateless_validator_reth::update::{branch_under, node_under, prefix_shared_by_all, Descent};

/// A key.
type Key = [u8; 32];

/// Applies `changes` to the trie the witness holds rooted at `root`.
fn update(nodes: Vec<Vec<u8>>, root: Key, changes: &[(Key, Option<&[u8]>)]) -> Result<Key, PathError> {
    let (state, _) = PathState::new(nodes, Vec::new(), root);
    let indexed = changes
        .iter()
        .enumerate()
        .map(|(index, (key, value))| (*key, value.map(|_| index as u32)))
        .collect::<Vec<_>>();
    let raw = changes
        .iter()
        .map(|(_, value)| value.unwrap_or_default())
        .collect::<Vec<_>>();
    let mut scratch = vec![0; STACK_LEN];
    let mut peak = 0;
    state.batch_update(root, raw.as_slice(), &indexed, &mut scratch, &mut peak)
}

/// The trie a set of entries hashes to, with every node in it.
fn build(entries: &BTreeMap<Key, Vec<u8>>) -> (Key, Vec<Vec<u8>>) {
    if entries.is_empty() {
        return (EMPTY_ROOT_HASH.0, Vec::new());
    }
    let targets = entries
        .keys()
        .map(|key| Nibbles::unpack(B256::from(*key)))
        .collect::<Vec<_>>();
    let mut builder = HashBuilder::default().with_proof_retainer(ProofRetainer::new(targets));
    for (key, value) in entries {
        builder.add_leaf(Nibbles::unpack(B256::from(*key)), value);
    }
    let root = builder.root();
    let nodes = builder
        .take_proof_nodes()
        .into_nodes_sorted()
        .into_iter()
        .map(|(_, node)| node.to_vec());
    (root.0, nodes.collect())
}

/// A key of `fill` bytes that ends in `last`.
fn ending(fill: u8, last: u8) -> Key {
    let mut key = [fill; 32];
    key[31] = last;
    key
}

/// The item a node is referenced through by hash.
fn digest_item(node: &[u8]) -> Vec<u8> {
    let mut item = vec![0xa0];
    item.extend(keccak256(node).0);
    item
}

/// A list of the given payload, which has to be shorter than 256 bytes.
fn list(payload: Vec<u8>) -> Vec<u8> {
    let mut list = if payload.len() < 56 {
        vec![0xc0 + payload.len() as u8]
    } else {
        vec![0xf8, payload.len() as u8]
    };
    list.extend(payload);
    list
}

#[test]
fn no_change_at_all_leaves_the_root_alone() {
    // The witness is not even asked for the root.
    assert_eq!(update(Vec::new(), [5; 32], &[]).unwrap(), [5; 32]);
}

#[test]
fn a_trie_that_holds_nothing_is_built_without_a_witness() {
    let value: &[u8] = &[0x11; 40];
    let expected = build(&BTreeMap::from([(ending(1, 1), value.to_vec())])).0;
    assert_eq!(
        update(Vec::new(), EMPTY_ROOT_HASH.0, &[(ending(1, 1), Some(value))]).unwrap(),
        expected
    );
    assert_eq!(
        update(Vec::new(), EMPTY_ROOT_HASH.0, &[(ending(1, 1), None)]).unwrap(),
        EMPTY_ROOT_HASH.0
    );
}

#[test]
fn removing_every_key_leaves_the_empty_root() {
    let entries: BTreeMap<Key, Vec<u8>> =
        (0..5).map(|last| (ending(0x42, last), vec![last + 1; 40])).collect();
    let (root, nodes) = build(&entries);
    let changes = entries.keys().map(|key| (*key, None)).collect::<Vec<_>>();
    assert_eq!(update(nodes, root, &changes).unwrap(), EMPTY_ROOT_HASH.0);
}

#[test]
fn removing_a_key_that_is_not_there_leaves_the_root_alone() {
    let entries: BTreeMap<Key, Vec<u8>> =
        (0..5).map(|last| (ending(0x42, last), vec![last + 1; 40])).collect();
    let (root, nodes) = build(&entries);
    // Past a leaf's path, part way along an extension, and at an empty slot of a branch.
    for key in [ending(0x42, 9), ending(0x43, 1), ending(0x52, 0)] {
        assert_eq!(update(nodes.clone(), root, &[(key, None)]).unwrap(), root);
    }
    let changes = [(ending(0x42, 9), None), (ending(0x43, 1), None), (ending(0x52, 0), None)];
    assert_eq!(update(nodes, root, &changes).unwrap(), root);
}

#[test]
fn a_read_gives_back_what_an_update_wrote() {
    let entries: BTreeMap<Key, Vec<u8>> =
        (0..5).map(|last| (ending(0x42, last), vec![last + 1; 40])).collect();
    let (root, nodes) = build(&entries);
    let written: &[u8] = &[0x99; 33];
    let after = update(
        nodes,
        root,
        &[(ending(0x42, 1), None), (ending(0x42, 2), Some(written)), (ending(0x77, 0), Some(written))],
    )
    .unwrap();
    let mut expected = entries.clone();
    expected.remove(&ending(0x42, 1));
    expected.insert(ending(0x42, 2), written.to_vec());
    expected.insert(ending(0x77, 0), written.to_vec());
    let (rebuilt, later) = build(&expected);
    assert_eq!(after, rebuilt);
    let (mut state, _) = PathState::new(later, Vec::new(), after);
    assert_eq!(state.get(after, &ending(0x42, 1)).unwrap(), None);
    assert_eq!(state.get(after, &ending(0x42, 2)).unwrap(), Some(written));
    assert_eq!(state.get(after, &ending(0x77, 0)).unwrap(), Some(written));
    assert_eq!(state.get(after, &ending(0x42, 3)).unwrap(), Some(&[4u8; 40][..]));
}

#[test]
fn a_node_the_witness_lacks_is_named() {
    let entries: BTreeMap<Key, Vec<u8>> = (0..4u8)
        .map(|first| {
            let mut key = [0; 32];
            key[0] = first << 4;
            (key, vec![first + 1; 40])
        })
        .collect();
    let (root, nodes) = build(&entries);
    // Only the root is left, so every child is a hash the witness has no node for.
    let root_node = nodes.iter().find(|node| keccak256(node).0 == root).unwrap().clone();
    let lacking = vec![root_node];
    let key = *entries.keys().next().unwrap();
    let leaf = nodes
        .iter()
        .map(|node| keccak256(node).0)
        .collect::<Vec<_>>();
    match update(lacking.clone(), root, &[(key, Some(&[1]))]) {
        Err(PathError::NodeNotResolved(digest)) => assert!(leaf.contains(&digest)),
        other => panic!("{other:?}"),
    }
    let (mut state, _) = PathState::new(lacking, Vec::new(), root);
    assert!(matches!(state.get(root, &key), Err(PathError::NodeNotResolved(_))));
    // A key no node below the root is needed for is answered all the same.
    assert_eq!(state.get(root, &[0xff; 32]).unwrap(), None);
}

#[test]
fn a_bad_witness_is_refused_rather_than_answered() {
    let entries: BTreeMap<Key, Vec<u8>> =
        (0..5).map(|last| (ending(0x42, last), vec![last + 1; 40])).collect();
    let (root, nodes) = build(&entries);
    // Every node is forged in its last byte, so none hashes to what its parent commits to.
    let forged = nodes
        .iter()
        .map(|node| {
            let mut node = node.clone();
            *node.last_mut().unwrap() ^= 1;
            node
        })
        .collect::<Vec<_>>();
    let (mut state, _) = PathState::new(forged.clone(), Vec::new(), root);
    assert!(state.get(root, &ending(0x42, 1)).is_err());
    assert!(update(forged, root, &[(ending(0x42, 1), None)]).is_err());
}

#[test]
fn a_child_wider_than_a_reference_is_refused() {
    // An extension over a list of forty bytes where a digest would take thirty-three.
    let mut payload = vec![0x11];
    payload.extend(list(vec![0x80; 40]));
    let extension = list(payload);
    let root = keccak256(&extension).0;
    let result = update(vec![extension.clone()], root, &[([0x11; 32], None)]);
    assert!(matches!(result, Err(PathError::OversizedItem)));
    let (mut state, _) = PathState::new(vec![extension], Vec::new(), root);
    assert!(matches!(state.get(root, &[0x11; 32]), Err(PathError::OversizedItem)));
}

/// A branch whose first slot holds `first` and whose other slots are absent.
fn branch(first: Vec<u8>, value: u8) -> Vec<u8> {
    let mut payload = first;
    payload.extend([0x80; 15]);
    payload.push(value);
    list(payload)
}

#[test]
fn a_branch_item_wider_than_a_reference_is_refused_where_all_are_read() {
    let wide = branch(list(vec![0x80; 40]), 0x80);
    let root = keccak256(&wide).0;
    // Two changes read every item of the branch, and a removal does too.
    let two: [(Key, Option<&[u8]>); 2] = [([0x22; 32], Some(&[1])), ([0x33; 32], Some(&[1]))];
    assert!(matches!(update(vec![wide.clone()], root, &two), Err(PathError::OversizedItem)));
    let removal = [([0x22; 32], None)];
    assert!(matches!(update(vec![wide], root, &removal), Err(PathError::OversizedItem)));
}

#[test]
fn a_branch_with_a_value_is_refused() {
    let filled = branch(vec![0x80], 0x05);
    let root = keccak256(&filled).0;
    let two: [(Key, Option<&[u8]>); 2] = [([0x22; 32], Some(&[1])), ([0x33; 32], Some(&[1]))];
    assert!(matches!(update(vec![filled], root, &two), Err(PathError::ValueInBranch)));
}

#[test]
fn a_branch_with_an_eighteenth_item_is_refused() {
    let mut payload = vec![0x80; 18];
    payload[0] = 0x80;
    let long = list(payload);
    let root = keccak256(&long).0;
    let two: [(Key, Option<&[u8]>); 2] = [([0x22; 32], Some(&[1])), ([0x33; 32], Some(&[1]))];
    assert!(matches!(
        update(vec![long], root, &two),
        Err(PathError::Rlp(alloy_rlp::Error::UnexpectedLength))
    ));
}

#[test]
fn a_branch_that_comes_out_too_wide_is_refused() {
    // Fifteen slots of forty bytes each: one write leaves them as they are, and the branch is wider
    // than any the trie has.
    let mut payload = vec![0x80];
    for _ in 0..15 {
        payload.extend(list(vec![0x80; 40]));
    }
    payload.push(0x80);
    let mut wide = vec![0xf9, (payload.len() >> 8) as u8, payload.len() as u8];
    wide.extend(payload);
    let root = keccak256(&wide).0;
    let result = update(vec![wide], root, &[([0x01; 32], Some(&[1; 40]))]);
    assert!(matches!(result, Err(PathError::OversizedNode)));
}

#[test]
fn a_reference_that_is_no_digest_is_refused() {
    // A branch whose first slot is a string of two bytes.
    let odd = branch(vec![0x82, 0x12, 0x34], 0x80);
    let root = keccak256(&odd).0;
    let (mut state, _) = PathState::new(vec![odd], Vec::new(), root);
    assert!(matches!(
        state.get(root, &[0x01; 32]),
        Err(PathError::Rlp(alloy_rlp::Error::UnexpectedLength))
    ));
}

#[test]
fn an_extension_of_no_nibble_is_refused() {
    let leaf = list([vec![0x20], vec![0x05]].concat());
    let mut payload = vec![0x00];
    payload.extend(digest_item(&leaf));
    let extension = list(payload);
    let root = keccak256(&extension).0;
    let (mut state, _) = PathState::new(vec![extension, leaf], Vec::new(), root);
    assert!(matches!(state.get(root, &[0; 32]), Err(PathError::MalformedPath)));
}

#[test]
fn a_node_that_is_no_list_is_refused() {
    let string = vec![0x83, 1, 2, 3];
    let root = keccak256(&string).0;
    let (mut state, _) = PathState::new(vec![string], Vec::new(), root);
    assert!(matches!(
        state.get(root, &[0; 32]),
        Err(PathError::Rlp(alloy_rlp::Error::UnexpectedString))
    ));
}

#[test]
fn errors_say_what_they_are() {
    let mut digest = [0; 32];
    digest[0] = 0x12;
    digest[31] = 0x34;
    assert_eq!(
        PathError::NodeNotResolved(digest).message(),
        "reached an unresolved node: 0x1200\u{2026}0034"
    );
    for (error, text) in [
        (alloy_rlp::Error::Overflow, "overflow"),
        (alloy_rlp::Error::LeadingZero, "leading zero"),
        (alloy_rlp::Error::InputTooShort, "input too short"),
        (alloy_rlp::Error::NonCanonicalSingleByte, "non-canonical single byte"),
        (alloy_rlp::Error::NonCanonicalSize, "non-canonical size"),
        (alloy_rlp::Error::UnexpectedLength, "unexpected length"),
        (alloy_rlp::Error::UnexpectedString, "unexpected string"),
        (alloy_rlp::Error::UnexpectedList, "unexpected list"),
        (
            alloy_rlp::Error::ListLengthMismatch {
                expected: 10,
                got: 7,
            },
            "unexpected list length (got 7, expected 10)",
        ),
        (alloy_rlp::Error::Custom("Input too big"), "Input too big"),
    ] {
        assert_eq!(PathError::Rlp(error).message(), format!("rlp decode error: {text}"));
    }
    assert_eq!(PathError::ValueInBranch.message(), "branch node with value");
    assert_eq!(PathError::MalformedPath.message(), "malformed hex-prefix path");
    assert_eq!(PathError::OversizedItem.message(), "node reference longer than a digest");
    assert_eq!(PathError::OversizedValue.message(), "leaf value longer than an account");
    assert_eq!(PathError::OversizedNode.message(), "node longer than a branch");
}

#[test]
fn the_witness_database_keeps_an_rlp_error_as_it_is() {
    assert!(matches!(
        PathError::Rlp(alloy_rlp::Error::LeadingZero).into_witness_error(),
        WitnessDbError::Rlp(alloy_rlp::Error::LeadingZero)
    ));
    match PathError::MalformedPath.into_witness_error() {
        WitnessDbError::TrieWitness(text) => assert_eq!(text, "malformed hex-prefix path"),
        other => panic!("{other:?}"),
    }
}

#[test]
fn changes_share_a_nibble_in_runs() {
    let changes = [
        (ending(0x10, 0), Some(0)),
        (ending(0x11, 0), None),
        (ending(0x2f, 0), Some(1)),
    ];
    assert_eq!(changes_by_nibble(&changes, 0, 0), (1, 2));
    assert_eq!(changes_by_nibble(&changes, 1, 0), (1, 2));
    assert_eq!(changes_by_nibble(&changes, 2, 0), (2, 3));
    assert_eq!(changes_by_nibble(&changes[..2], 0, 1), (0, 1));
    assert!(has_deletion(&changes));
    assert!(!has_deletion(&changes[2..]));
}

#[test]
fn what_keys_share_is_the_least_any_two_of_them_do() {
    assert_eq!(prefix_shared_by_all(&[1, 2, 3, 4], &[1, 2, 3, 5], None), 3);
    assert_eq!(prefix_shared_by_all(&[1, 2, 3, 4], &[1, 2, 3, 5], Some(&[1, 2, 9, 9])), 2);
    assert_eq!(prefix_shared_by_all(&[1, 2, 3, 4], &[1, 7, 3, 5], Some(&[1, 2, 3, 4])), 1);
    assert_eq!(prefix_shared_by_all(&[1, 2], &[1, 2], Some(&[8, 8])), 0);
}

#[test]
fn a_short_node_absorbs_the_path_above_it() {
    let mut scratch = vec![0; STACK_LEN];
    let mut peak = 0;
    let mut stack = DynStack::new(&mut scratch, &mut peak);
    // A leaf of the nibbles 3 and 4, and the same leaf under 1 and 2.
    let leaf = [0xc4, 0x82, 0x20, 0x34, 0x05];
    assert_eq!(
        node_under(&[1, 2], &leaf, None, &mut stack).unwrap(),
        &[0xc5, 0x83, 0x20, 0x12, 0x34, 0x05]
    );
    assert_eq!(node_under(&[], &leaf, None, &mut stack).unwrap(), &leaf);
    // An extension of the nibble 3 over an inline leaf, under 1.
    let extension = [0xc4, 0x13, 0xc2, 0x20, 0x05];
    assert_eq!(
        node_under(&[1], &extension, None, &mut stack).unwrap(),
        &[0xc6, 0x82, 0x00, 0x13, 0xc2, 0x20, 0x05]
    );
    // A path longer than a key is refused.
    assert!(matches!(
        node_under(&[1; 63], &leaf, None, &mut stack),
        Err(PathError::MalformedPath)
    ));
}

#[test]
fn a_branch_takes_an_extension_for_the_path_above_it() {
    let mut scratch = vec![0; STACK_LEN];
    let mut peak = 0;
    let mut stack = DynStack::new(&mut scratch, &mut peak);
    let empty: &[u8] = &[0x80];
    let mut items = [empty; 16];
    items[4] = &[0xc2, 0x20, 0x05];
    let bare = branch_under(&[], &items, &mut stack);
    let mut expected = vec![0xd3];
    expected.extend([0x80; 4]);
    expected.extend([0xc2, 0x20, 0x05]);
    expected.extend([0x80; 12]);
    assert_eq!(bare, expected.as_slice());
    let under = branch_under(&[7], &items, &mut stack);
    assert_eq!(under, [vec![0xd5, 0x17], expected.clone()].concat().as_slice());
    assert_eq!(node_under(&[7], bare, None, &mut stack).unwrap(), under);
}

#[test]
fn a_frame_can_be_run_on_its_own() {
    let (state, _) = PathState::new(Vec::new(), Vec::new(), [0; 32]);
    let raw: [&[u8]; 2] = [&[0x05], &[0x06]];
    let descent = Descent { state: &state, values: raw.as_slice() };
    let mut scratch = vec![0; STACK_LEN];
    let mut peak = 0;
    let mut stack = DynStack::new(&mut scratch, &mut peak);
    let key = [0x11; 32];
    // Where a key has no nibble left, writing it leaves a leaf of no path.
    let leaf = descent.update(&[0x80], &[(key, Some(1))], 64, &mut stack).unwrap();
    assert_eq!(leaf, &[0xc2, 0x20, 0x06]);
    assert_eq!(descent.update(leaf, &[(key, None)], 64, &mut stack).unwrap(), &[0x80]);
    // Two keys that part at the last nibble leave a branch there.
    let mut other = key;
    other[31] = 0x12;
    let branch = descent
        .update(&[0x80], &[(key, Some(0)), (other, Some(1))], 63, &mut stack)
        .unwrap();
    let mut expected = vec![0xd5, 0x80, 0xc2, 0x20, 0x05, 0xc2, 0x20, 0x06];
    expected.extend([0x80; 14]);
    assert_eq!(branch, expected.as_slice());
}

/// The trie of `entries`, with the nodes along `keys` alone.
fn build_along(entries: &BTreeMap<Key, Vec<u8>>, keys: &[Key]) -> (Key, Vec<Vec<u8>>) {
    let targets = keys
        .iter()
        .map(|key| Nibbles::unpack(B256::from(*key)))
        .collect::<Vec<_>>();
    let mut builder = HashBuilder::default().with_proof_retainer(ProofRetainer::new(targets));
    for (key, value) in entries {
        builder.add_leaf(Nibbles::unpack(B256::from(*key)), value);
    }
    let root = builder.root();
    let nodes = builder
        .take_proof_nodes()
        .into_nodes_sorted()
        .into_iter()
        .map(|(_, node)| node.to_vec());
    (root.0, nodes.collect())
}

/// Entries spread over the first byte of their keys.
fn spread(count: u16) -> BTreeMap<Key, Vec<u8>> {
    (0..count)
        .map(|index| {
            let mut key = keccak256(index.to_be_bytes()).0;
            key[31] = index as u8;
            (key, vec![index as u8 + 1; 40])
        })
        .collect()
}

#[test]
fn the_nodes_along_the_changed_keys_are_enough() {
    let entries = spread(120);
    let keys = entries.keys().step_by(17).copied().collect::<Vec<_>>();
    let (root, along) = build_along(&entries, &keys);
    let (whole, every) = build(&entries);
    assert_eq!(root, whole);
    assert!(along.len() < every.len());

    let (mut state, _) = PathState::new(along.clone(), Vec::new(), root);
    for key in &keys {
        assert_eq!(state.get(root, key).unwrap(), Some(entries[key].as_slice()));
    }
    let written: &[u8] = &[0x77; 50];
    let changes = keys.iter().map(|key| (*key, Some(written))).collect::<Vec<_>>();
    let mut expected = entries.clone();
    for key in &keys {
        expected.insert(*key, written.to_vec());
    }
    assert_eq!(update(along, root, &changes).unwrap(), build(&expected).0);
}

#[test]
fn a_collapse_asks_for_the_child_beside_the_removed_key() {
    let entries = BTreeMap::from([(ending(0x42, 1), vec![1; 40]), (ending(0x42, 2), vec![2; 40])]);
    let (root, every) = build(&entries);
    let mut sibling = vec![0x20];
    sibling.push(0xa8);
    sibling.extend([2; 40]);
    let sibling = keccak256(list(sibling)).0;
    let along = every
        .iter()
        .filter(|node| keccak256(node).0 != sibling)
        .cloned()
        .collect::<Vec<_>>();
    assert!(along.len() < every.len());

    // A write leaves the branch a branch, and a removal leaves the one child that is not there.
    let value: &[u8] = &[3; 40];
    assert!(update(along.clone(), root, &[(ending(0x42, 1), Some(value))]).is_ok());
    match update(along, root, &[(ending(0x42, 1), None)]) {
        Err(PathError::NodeNotResolved(digest)) => assert_eq!(digest, sibling),
        other => panic!("{other:?}"),
    }
    let left = BTreeMap::from([(ending(0x42, 2), vec![2; 40])]);
    assert_eq!(update(every, root, &[(ending(0x42, 1), None)]).unwrap(), build(&left).0);
}

#[test]
fn writing_what_is_there_leaves_the_root_alone() {
    let entries = spread(60);
    let (root, nodes) = build(&entries);
    let mut changes = entries
        .iter()
        .step_by(7)
        .map(|(key, value)| (*key, Some(value.as_slice())))
        .collect::<Vec<_>>();
    changes.push(([0xff; 32], None));
    changes.sort_by_key(|(key, _)| *key);
    assert_eq!(update(nodes, root, &changes).unwrap(), root);
}

#[test]
fn two_updates_come_to_what_one_does() {
    let entries = spread(60);
    let (root, nodes) = build(&entries);
    let keys = entries.keys().copied().collect::<Vec<_>>();
    let (one, two): (&[u8], &[u8]) = (&[0x61; 40], &[0x62; 45]);
    let first = [(keys[3], None), (keys[20], Some(one)), (keys[40], Some(one))];
    let second = [(keys[3], Some(two)), (keys[40], None), (keys[41], None)];
    let both = [(keys[3], Some(two)), (keys[20], Some(one)), (keys[40], None), (keys[41], None)];

    let between = update(nodes.clone(), root, &first).unwrap();
    let mut changed = entries.clone();
    changed.remove(&keys[3]);
    changed.insert(keys[20], one.to_vec());
    changed.insert(keys[40], one.to_vec());
    let (rebuilt, later) = build(&changed);
    assert_eq!(between, rebuilt);
    assert_eq!(update(later, between, &second).unwrap(), update(nodes, root, &both).unwrap());
}

#[test]
fn changes_made_in_either_order_come_to_one_root() {
    let entries = spread(60);
    let (root, nodes) = build(&entries);
    let keys = entries.keys().copied().collect::<Vec<_>>();
    let one: &[u8] = &[0x61; 40];
    let first = [(keys[3], None), (keys[20], Some(one))];
    let second = [(keys[40], Some(one)), (keys[41], None)];
    let both = [(keys[3], None), (keys[20], Some(one)), (keys[40], Some(one)), (keys[41], None)];

    let mut after_first = entries.clone();
    after_first.remove(&keys[3]);
    after_first.insert(keys[20], one.to_vec());
    let (first_root, first_nodes) = build(&after_first);
    let mut after_second = entries.clone();
    after_second.insert(keys[40], one.to_vec());
    after_second.remove(&keys[41]);
    let (second_root, second_nodes) = build(&after_second);

    let expected = update(nodes.clone(), root, &both).unwrap();
    assert_eq!(update(nodes.clone(), root, &first).unwrap(), first_root);
    assert_eq!(update(nodes, root, &second).unwrap(), second_root);
    assert_eq!(update(first_nodes, first_root, &second).unwrap(), expected);
    assert_eq!(update(second_nodes, second_root, &first).unwrap(), expected);
}

#[test]
fn a_batch_comes_to_what_its_changes_do_one_at_a_time() {
    let entries = spread(60);
    let (root, nodes) = build(&entries);
    let keys = entries.keys().copied().collect::<Vec<_>>();
    let one: &[u8] = &[0x61; 40];
    let changes = [
        (keys[3], None),
        (keys[4], Some(one)),
        (keys[20], None),
        (keys[21], None),
        (ending(0x77, 0x05), Some(one)),
    ];
    let mut sorted = changes;
    sorted.sort_by_key(|(key, _)| *key);
    let expected = update(nodes, root, &sorted).unwrap();
    for order in [[0, 1, 2, 3, 4], [4, 3, 2, 1, 0], [2, 0, 4, 1, 3]] {
        let mut held = entries.clone();
        for index in order {
            let (key, value) = changes[index];
            let (before, witness) = build(&held);
            let after = update(witness, before, &[(key, value)]).unwrap();
            match value {
                Some(value) => held.insert(key, value.to_vec()),
                None => held.remove(&key),
            };
            assert_eq!(after, build(&held).0);
        }
        assert_eq!(build(&held).0, expected);
    }
}
