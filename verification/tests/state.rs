//! Accounts, storage and the state root over a whole world, against tries built from scratch.

use std::collections::BTreeMap;

use alloy_primitives::{keccak256, B256, KECCAK256_EMPTY, U256};
use alloy_trie::proof::ProofRetainer;
use alloy_trie::{HashBuilder, Nibbles, EMPTY_ROOT_HASH};
use stateless_validator_reth::error::{PathError, StateRootError};
use stateless_validator_reth::path::PathState;
use stateless_validator_reth::stack::STACK_LEN;
use stateless_validator_reth::state::{Account, HashedPostStateSorted, HashedStorageSorted};

/// A 32-byte word or hash.
type Word = [u8; 32];

/// The slots of one account, unhashed.
type Slots = BTreeMap<Word, Word>;

/// An account of the world: what it holds besides its storage, and its storage.
type Entry = (u64, Word, Word, Slots);

/// The trie a set of hashed keys and values hashes to, together with every node in it.
fn build(entries: &BTreeMap<Word, Vec<u8>>) -> (Word, Vec<Vec<u8>>) {
    if entries.is_empty() {
        return (EMPTY_ROOT_HASH.0, Vec::new());
    }
    let targets = entries
        .keys()
        .map(|key| Nibbles::unpack(B256::from(*key)))
        .collect::<Vec<_>>();
    let mut builder = HashBuilder::default().with_proof_retainer(ProofRetainer::new(targets));
    for (key, value) in entries {
        builder.add_leaf(Nibbles::unpack(B256::from(*key)), value);
    }
    let root = builder.root();
    let nodes = builder
        .take_proof_nodes()
        .into_nodes_sorted()
        .into_iter()
        .map(|(_, node)| node.to_vec());
    (root.0, nodes.collect())
}

/// A word of a small number.
fn word(value: u64) -> Word {
    U256::from(value).to_be_bytes()
}

/// An address that ends in `index`.
fn address(index: u8) -> [u8; 20] {
    let mut address = [0x33; 20];
    address[19] = index;
    address
}

/// The hash an address or a slot is looked up by.
fn hashed(bytes: &[u8]) -> Word {
    keccak256(bytes).0
}

/// The storage trie of a set of slots, a slot at zero left out.
fn storage_trie(slots: &Slots) -> (Word, Vec<Vec<u8>>) {
    let entries = slots
        .iter()
        .filter(|(_, value)| **value != [0; 32])
        .map(|(slot, value)| (hashed(slot), alloy_rlp::encode(U256::from_be_bytes(*value))))
        .collect();
    build(&entries)
}

/// The state trie of a world, with the nodes of every trie in it.
fn world_trie(world: &BTreeMap<[u8; 20], Entry>) -> (Word, Vec<Vec<u8>>) {
    let mut entries = BTreeMap::new();
    let mut nodes = Vec::new();
    for (address, (nonce, balance, code_hash, slots)) in world {
        let (storage_root, storage_nodes) = storage_trie(slots);
        nodes.extend(storage_nodes);
        let account = alloy_trie::TrieAccount::new(
            *nonce,
            U256::from_be_bytes(*balance),
            B256::from(storage_root),
            B256::from(*code_hash),
        );
        entries.insert(hashed(address), alloy_rlp::encode(account));
    }
    let (root, state_nodes) = build(&entries);
    nodes.extend(state_nodes);
    (root, nodes)
}

/// A world of a few accounts, some with storage.
fn world() -> BTreeMap<[u8; 20], Entry> {
    (0..20u8)
        .map(|index| {
            let slots = (0..u64::from(index % 4) * 3)
                .map(|slot| (word(slot), word(slot * 1000 + 1)))
                .collect();
            let entry = (
                u64::from(index) * 70,
                word(1 << index),
                KECCAK256_EMPTY.0,
                slots,
            );
            (address(index), entry)
        })
        .collect()
}

/// What a block leaves of an account, and what it wrote to its storage.
type Touched = (Option<Account>, Option<(bool, Slots)>);

/// The state a block leaves behind, ordered by hashed key.
fn post_state(touched: &BTreeMap<[u8; 20], Touched>) -> HashedPostStateSorted {
    let mut accounts = Vec::new();
    let mut storages = Vec::new();
    for (address, (account, storage)) in touched {
        accounts.push((hashed(address), *account));
        if let Some((wiped, slots)) = storage {
            let mut storage_slots = slots
                .iter()
                .map(|(slot, value)| (hashed(slot), *value))
                .collect::<Vec<_>>();
            storage_slots.sort();
            storages.push((
                hashed(address),
                HashedStorageSorted {
                    storage_slots,
                    wiped: *wiped,
                },
            ));
        }
    }
    accounts.sort_by_key(|(address, _)| *address);
    HashedPostStateSorted::new(accounts, storages)
}

/// The world once a block is over.
fn after(
    world: &BTreeMap<[u8; 20], Entry>,
    touched: &BTreeMap<[u8; 20], Touched>,
) -> BTreeMap<[u8; 20], Entry> {
    let mut world = world.clone();
    for (address, (account, storage)) in touched {
        let Some(account) = account else {
            world.remove(address);
            continue;
        };
        let mut slots = world.get(address).map(|entry| entry.3.clone()).unwrap_or_default();
        if let Some((wiped, written)) = storage {
            if *wiped {
                slots.clear();
            }
            slots.extend(written.clone());
        }
        let code_hash = account.bytecode_hash.unwrap_or(KECCAK256_EMPTY.0);
        world.insert(*address, (account.nonce, account.balance, code_hash, slots));
    }
    world
}

/// An account a block leaves with `nonce`.
fn left_with(nonce: u64) -> Account {
    Account {
        nonce,
        balance: word(nonce * 3),
        bytecode_hash: None,
    }
}

#[test]
fn an_account_reads_as_the_state_records_it() {
    let world = world();
    let (root, nodes) = world_trie(&world);
    let (mut state, _) = PathState::new(nodes, Vec::new(), root);
    // The second pass answers from what the first recorded.
    for _ in 0..2 {
        for (address, (nonce, balance, code_hash, slots)) in &world {
            let account = state.account(address).unwrap().unwrap();
            assert_eq!(account.nonce, *nonce);
            assert_eq!(account.balance, *balance);
            assert_eq!(account.code_hash, *code_hash);
            assert_eq!(account.storage_root, storage_trie(slots).0);
        }
        assert!(state.account(&address(200)).unwrap().is_none());
    }
}

#[test]
fn an_account_is_looked_up_by_its_hashed_address() {
    let (root, nodes) = world_trie(&world());
    let (mut state, _) = PathState::new(nodes, Vec::new(), root);
    let direct = state.account_at(hashed(&address(3))).unwrap().unwrap();
    let account = state.account(&address(3)).unwrap().unwrap();
    assert_eq!((direct.nonce, direct.balance), (account.nonce, account.balance));
    assert_eq!(account.nonce, 210);
}

#[test]
fn a_slot_reads_as_the_storage_records_it() {
    let world = world();
    let (root, nodes) = world_trie(&world);
    let (mut state, _) = PathState::new(nodes, Vec::new(), root);
    for _ in 0..2 {
        for (address, (_, _, _, slots)) in &world {
            for (slot, value) in slots {
                assert_eq!(state.storage(address, slot).unwrap(), *value);
            }
            // A slot nothing was written to is zero, in a trie and where there is none.
            assert_eq!(state.storage(address, &word(777)).unwrap(), [0; 32]);
        }
        // So is every slot of an account that is not there.
        assert_eq!(state.storage(&address(200), &word(0)).unwrap(), [0; 32]);
    }
}

#[test]
fn a_wide_word_reads_back_whole() {
    let mut world = world();
    let wide = [0xfe; 32];
    world.get_mut(&address(1)).unwrap().3.insert(word(9), wide);
    let (root, nodes) = world_trie(&world);
    let (mut state, _) = PathState::new(nodes, Vec::new(), root);
    assert_eq!(state.storage(&address(1), &word(9)).unwrap(), wide);
}

/// The root a block ends with is that of a world rebuilt from scratch.
fn assert_root(name: &str, touched: BTreeMap<[u8; 20], Touched>) {
    let world = world();
    let (root, nodes) = world_trie(&world);
    let (expected, _) = world_trie(&after(&world, &touched));
    let (mut state, _) = PathState::new(nodes, Vec::new(), root);
    let actual = state.calculate_state_root(&post_state(&touched)).unwrap();
    assert_eq!(actual, expected, "{name}");
    // Reads stay anchored where they were.
    assert_eq!(state.account(&address(5)).unwrap().unwrap().nonce, 350, "{name}");
}

#[test]
fn the_state_root_is_that_of_the_world_left_behind() {
    assert_root("nothing touched", BTreeMap::new());
    assert_root("an account written", BTreeMap::from([(address(2), (Some(left_with(9)), None))]));
    assert_root("an account removed", BTreeMap::from([(address(7), (None, None))]));
    assert_root("an account added", BTreeMap::from([(address(99), (Some(left_with(1)), None))]));
    let coded = Account {
        bytecode_hash: Some([0x77; 32]),
        ..left_with(4)
    };
    assert_root("an account with code", BTreeMap::from([(address(98), (Some(coded), None))]));
}

#[test]
fn the_state_root_takes_storage_in() {
    let written: Slots = (0..6).map(|slot| (word(slot), word(slot + 40))).collect();
    let cleared: Slots = (0..9).map(|slot| (word(slot), [0; 32])).collect();
    assert_root(
        "slots written",
        BTreeMap::from([(address(3), (Some(left_with(9)), Some((false, written.clone()))))]),
    );
    assert_root(
        "slots cleared",
        BTreeMap::from([(address(3), (Some(left_with(9)), Some((false, cleared.clone()))))]),
    );
    assert_root(
        "storage wiped",
        BTreeMap::from([(address(3), (Some(left_with(9)), Some((true, Slots::new()))))]),
    );
    assert_root(
        "storage wiped and written",
        BTreeMap::from([(address(3), (Some(left_with(9)), Some((true, written.clone()))))]),
    );
    assert_root(
        "storage of an account that was not there",
        BTreeMap::from([(address(97), (Some(left_with(1)), Some((false, written.clone()))))]),
    );
    let many = (0..20u8)
        .map(|index| {
            let touched = match index % 4 {
                0 => (None, None),
                1 => (Some(left_with(index.into())), None),
                2 => (Some(left_with(index.into())), Some((false, written.clone()))),
                _ => (Some(left_with(index.into())), Some((true, cleared.clone()))),
            };
            (address(index), touched)
        })
        .collect();
    assert_root("everything at once", many);
}

#[test]
fn the_storage_root_is_that_of_the_slots_left_behind() {
    let world = world();
    let (root, nodes) = world_trie(&world);
    let (mut state, _) = PathState::new(nodes, Vec::new(), root);
    let mut scratch = vec![0; STACK_LEN];
    let mut peak = 0;
    let untouched = state
        .storage_root(hashed(&address(3)), None, &mut scratch, &mut peak)
        .unwrap();
    assert_eq!(untouched, storage_trie(&world[&address(3)].3).0);
    assert_eq!(peak, 0);
    let written = HashedStorageSorted {
        storage_slots: vec![(hashed(&word(0)), word(5))],
        wiped: true,
    };
    let wiped = state
        .storage_root(hashed(&address(3)), Some(&written), &mut scratch, &mut peak)
        .unwrap();
    assert_eq!(wiped, storage_trie(&Slots::from([(word(0), word(5))])).0);
    assert!(0 < peak && peak <= STACK_LEN);
}

#[test]
fn a_witness_short_of_a_trie_fails_the_state_root() {
    let world = world();
    let (root, _) = world_trie(&world);
    let (mut state, _) = PathState::new(Vec::new(), Vec::new(), root);
    let touched = BTreeMap::from([(address(2), (Some(left_with(9)), None))]);
    assert!(matches!(
        state.calculate_state_root(&post_state(&touched)),
        Err(StateRootError::CalculationFailed)
    ));
    let removed = BTreeMap::from([(address(2), (None, None))]);
    assert!(matches!(
        state.calculate_state_root(&post_state(&removed)),
        Err(StateRootError::CalculationFailed)
    ));
    // Nothing touched needs nothing of the witness.
    assert_eq!(
        state.calculate_state_root(&post_state(&BTreeMap::new())).unwrap(),
        root
    );
    assert!(matches!(
        state.account(&address(2)),
        Err(PathError::NodeNotResolved(digest)) if digest == root
    ));
}

#[test]
fn a_value_that_is_no_account_is_refused() {
    let key = hashed(&address(1));
    // Three fields where an account has four.
    let short = alloy_rlp::encode(vec![U256::from(1), U256::from(2), U256::from(3)]);
    let (root, nodes) = build(&BTreeMap::from([(key, short)]));
    let (mut state, _) = PathState::new(nodes, Vec::new(), root);
    assert!(matches!(
        state.account(&address(1)),
        Err(PathError::Rlp(alloy_rlp::Error::UnexpectedLength))
    ));
    // A string where an account is a list.
    let (root, nodes) = build(&BTreeMap::from([(key, vec![0x82, 0x12, 0x34])]));
    let (mut state, _) = PathState::new(nodes, Vec::new(), root);
    assert!(matches!(
        state.account(&address(1)),
        Err(PathError::Rlp(alloy_rlp::Error::UnexpectedString))
    ));
}

#[test]
fn a_value_that_is_no_word_is_refused() {
    for (value, expected) in [
        (vec![0x00], alloy_rlp::Error::LeadingZero),
        (vec![0xc0], alloy_rlp::Error::UnexpectedList),
        ([vec![0xa1], vec![0x11; 33]].concat(), alloy_rlp::Error::Overflow),
    ] {
        let (storage_root, mut nodes) =
            build(&BTreeMap::from([(hashed(&word(4)), value)]));
        let account = alloy_trie::TrieAccount::new(
            1,
            U256::from(2),
            B256::from(storage_root),
            KECCAK256_EMPTY,
        );
        let (root, state_nodes) =
            build(&BTreeMap::from([(hashed(&address(1)), alloy_rlp::encode(account))]));
        nodes.extend(state_nodes);
        let (mut state, _) = PathState::new(nodes, Vec::new(), root);
        match state.storage(&address(1), &word(4)) {
            Err(PathError::Rlp(error)) => assert_eq!(error, expected),
            other => panic!("{other:?}"),
        }
    }
}

#[test]
fn bytecode_is_handed_out_by_its_hash_in_order() {
    let codes = vec![vec![1, 2, 3], vec![], vec![0x60; 40], vec![1, 2, 3]];
    let (state, bytecode) = PathState::new(Vec::new(), codes, [7; 32]);
    assert_eq!(state.root, [7; 32]);
    assert_eq!(
        bytecode,
        vec![
            (hashed(&[1, 2, 3]), vec![1, 2, 3]),
            (KECCAK256_EMPTY.0, vec![]),
            (hashed(&[0x60; 40]), vec![0x60; 40]),
        ]
    );
}

#[test]
fn nodes_are_indexed_by_their_own_hash() {
    let (_, nodes) = world_trie(&world());
    let (state, _) = PathState::new(nodes.clone(), Vec::new(), [0; 32]);
    for node in &nodes {
        assert_eq!(state.resolve(hashed(node)).unwrap(), node.as_slice());
    }
    assert!(matches!(
        state.resolve([9; 32]),
        Err(PathError::NodeNotResolved(digest)) if digest == [9; 32]
    ));
}

#[test]
fn a_forged_witness_leaves_no_state_root() {
    let world = world();
    let (root, nodes) = world_trie(&world);
    let touched = BTreeMap::from([(
        address(3),
        (Some(left_with(9)), Some((false, Slots::from([(word(0), word(5))])))),
    )]);
    let (expected, _) = world_trie(&after(&world, &touched));
    // Whichever node is forged, what comes out is the root there is, or none.
    let mut refused = 0;
    for at in 0..nodes.len() {
        let mut forged = nodes.clone();
        *forged[at].last_mut().unwrap() ^= 1;
        let (mut state, _) = PathState::new(forged, Vec::new(), root);
        match state.calculate_state_root(&post_state(&touched)) {
            Ok(actual) => assert_eq!(actual, expected),
            Err(StateRootError::CalculationFailed) => refused += 1,
        }
    }
    assert!(0 < refused && refused < nodes.len());
}

#[test]
fn the_last_write_to_an_account_stands() {
    let storage = |wiped| HashedStorageSorted {
        storage_slots: Vec::new(),
        wiped,
    };
    let state = HashedPostStateSorted::new(
        Vec::new(),
        vec![([1; 32], storage(false)), ([2; 32], storage(false)), ([1; 32], storage(true))],
    );
    assert!(state.storage_of(&[1; 32]).unwrap().wiped);
    assert!(!state.storage_of(&[2; 32]).unwrap().wiped);
    assert!(state.storage_of(&[3; 32]).is_none());
}

#[test]
fn an_account_read_is_held_and_an_absent_one_is_not() {
    let (root, nodes) = world_trie(&world());
    let (mut state, _) = PathState::new(nodes, Vec::new(), root);
    assert!(state.accounts.is_empty());
    state.account(&address(3)).unwrap();
    state.storage(&address(4), &word(0)).unwrap();
    state.account(&address(200)).unwrap();
    let mut held = state.accounts.keys().map(|key| key.0).collect::<Vec<_>>();
    held.sort();
    let mut expected = vec![hashed(&address(3)), hashed(&address(4))];
    expected.sort();
    assert_eq!(held, expected);
}

#[test]
fn a_read_holds_the_deepest_node_within_its_prefix() {
    let (root, nodes) = world_trie(&world());
    let (mut state, _) = PathState::new(nodes.clone(), Vec::new(), root);
    let key = hashed(&address(3));
    state.get(root, &key).unwrap();
    for (prefix, entry) in state.prefix_nodes.iter().enumerate() {
        assert_eq!(entry.is_some(), prefix == usize::from(key[0]));
    }
    let (held, depth, node) = state.prefix_nodes[usize::from(key[0])].unwrap();
    assert_eq!(held, root);
    assert!(0 < depth && depth <= 2);
    assert!(nodes.iter().any(|known| known == node));
    // A trie that holds nothing leaves nothing behind.
    state.get(EMPTY_ROOT_HASH.0, &[0xff; 32]).unwrap();
    assert!(key[0] == 0xff || state.prefix_nodes[0xff].is_none());
}

#[test]
fn a_new_state_remembers_nothing() {
    let (root, nodes) = world_trie(&world());
    let (state, _) = PathState::new(nodes, Vec::new(), root);
    assert!(state.accounts.is_empty());
    assert!(state.prefix_nodes.iter().all(|entry| entry.is_none()));
}

#[test]
fn an_account_already_held_is_not_walked_for_again() {
    let (root, nodes) = world_trie(&world());
    let (mut state, _) = PathState::new(nodes, Vec::new(), root);
    let read = state.account(&address(3)).unwrap().unwrap();
    assert!(state.prefix_nodes.iter().any(|entry| entry.is_some()));
    state.prefix_nodes = [None; 256];
    let again = state.account(&address(3)).unwrap().unwrap();
    assert_eq!(again.storage_root, read.storage_root);
    assert!(state.prefix_nodes.iter().all(|entry| entry.is_none()));
}

#[test]
fn a_slot_read_holds_a_node_of_the_storage_trie() {
    let (root, nodes) = world_trie(&world());
    let (mut state, _) = PathState::new(nodes, Vec::new(), root);
    let storage_root = state.account(&address(3)).unwrap().unwrap().storage_root;
    state.prefix_nodes = [None; 256];
    state.storage(&address(3), &word(0)).unwrap();
    let slot = hashed(&word(0));
    for (prefix, entry) in state.prefix_nodes.iter().enumerate() {
        match entry {
            Some((held, depth, _)) => {
                assert_eq!(prefix, usize::from(slot[0]));
                assert_eq!(*held, storage_root);
                assert!(0 < *depth && *depth <= 2);
            }
            None => assert_ne!(prefix, usize::from(slot[0])),
        }
    }
}

#[test]
fn a_state_root_that_fails_holds_the_accounts_up_to_where_it_does() {
    let world = world();
    let (root, mut nodes) = world_trie(&world);
    let mut order = [address(1), address(2), address(3), address(5)];
    order.sort_by_key(|address| hashed(address));
    let (storage_root, _) = storage_trie(&world[&order[1]].3);
    nodes.retain(|node| hashed(node) != storage_root);
    let (mut state, _) = PathState::new(nodes, Vec::new(), root);
    let slots = Slots::from([(word(0), word(5))]);
    let mut touched = BTreeMap::new();
    for (index, address) in order.iter().enumerate() {
        let storage = if index == 1 { Some((false, slots.clone())) } else { None };
        touched.insert(*address, (Some(left_with(9)), storage));
    }
    assert!(matches!(
        state.calculate_state_root(&post_state(&touched)),
        Err(StateRootError::CalculationFailed)
    ));
    let mut held = state.accounts.keys().map(|key| key.0).collect::<Vec<_>>();
    held.sort();
    assert_eq!(held, vec![hashed(&order[0]), hashed(&order[1])]);
}
