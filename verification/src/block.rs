//! What a block leaves of the state, entry by entry: each account with what it was left with, each
//! slot with the word it was left at, and everything else as it was.

use vstd::prelude::*;

use crate::account::{account_rlp, word_rlp, TrieAccount};
use crate::batch::{holds_every_node, law_holds_where};
use crate::changes::precedes;
use crate::error::{PathError, StateRootError};
use crate::forms::{law_bytes_told_by_nibbles, law_zero_word};
use crate::index::storage_entries;
use crate::keccak::keccak;
use crate::laws::{commits, holds_trie};
use crate::nibbles::{unpacked, MAX_NIBBLES};
use crate::outcome::Reach;
use crate::path::{
    account_after, account_read, state_changes, state_root_after, storage_read, storage_root_after,
    updated_root,
};
use crate::state::{
    is_entry_of, keys_in_order, slot_changes, HashedPostStateSorted, HashedStorageSorted,
};
use crate::trie::{no_keys, overlay, trie_rlp};
use crate::world::{
    holds_storage, law_account_read, law_state_root, law_storage_read, law_storage_root, records,
    records_word, slots_after, world_changes,
};

verus! {

/// Keys in order are all different.
pub proof fn law_ordered_keys_differ<T>(entries: Seq<([u8; 32], T)>, i: int, j: int)
    requires
        keys_in_order(entries),
        0 <= i < j < entries.len(),
    ensures
        entries[i].0 != entries[j].0,
        unpacked(entries[i].0@) != unpacked(entries[j].0@),
{
    let (left, right) = (entries[i].0@, entries[j].0@);
    assert(precedes(left, right));
    let at = choose|at: int|
        0 <= at < left.len() && at < right.len() && #[trigger] left[at] < right[at]
            && left.subrange(0, at) == right.subrange(0, at);
    assert(left[at] < right[at]);
    if unpacked(left) == unpacked(right) {
        law_bytes_told_by_nibbles(left, right);
    }
}

/// A state trie records an account where its entry is that account written out, and none where it has
/// no entry.
pub proof fn law_records_where(
    entries: Map<Seq<u8>, Seq<u8>>,
    hashed_address: [u8; 32],
    account: TrieAccount,
)
    ensures
        records(entries, hashed_address, Some(account)) <==> entries.contains_key(
            unpacked(hashed_address@),
        ) && entries[unpacked(hashed_address@)] == account_rlp(account),
        records(entries, hashed_address, None) <==> !entries.contains_key(unpacked(hashed_address@)),
{
}

/// Whether a storage trie's entries leave a word at a slot: nothing where all its bytes are zero, and
/// otherwise the word itself.
pub open spec fn holds_word(
    slots: Map<Seq<u8>, Seq<u8>>,
    hashed_slot: [u8; 32],
    word: [u8; 32],
) -> bool {
    if forall|k: int| 0 <= k < 32 ==> #[trigger] word@[k] == 0 {
        !slots.contains_key(unpacked(hashed_slot@))
    } else {
        slots.contains_key(unpacked(hashed_slot@)) && slots[unpacked(hashed_slot@)] == word_rlp(word)
    }
}

/// Whether no entry of a list is of a key.
pub open spec fn names_none<T>(entries: Seq<([u8; 32], T)>, key: Seq<u8>) -> bool {
    forall|i: int| 0 <= i < entries.len() ==> unpacked((#[trigger] entries[i]).0@) != key
}

/// Whether `after` is what a storage trie that held `before` is left with: the word each slot was
/// written, and the slots not written as they were, or without an entry where the storage was
/// dropped.
pub open spec fn leaves_slots(
    before: Map<Seq<u8>, Seq<u8>>,
    written: Seq<([u8; 32], [u8; 32])>,
    wiped: bool,
    after: Map<Seq<u8>, Seq<u8>>,
) -> bool {
    &&& forall|j: int|
        0 <= j < written.len() ==> holds_word(after, (#[trigger] written[j]).0, written[j].1)
    &&& forall|key: Seq<u8>|
        names_none(written, key) ==> {
            &&& #[trigger] after.contains_key(key) <==> !wiped && before.contains_key(key)
            &&& after.contains_key(key) ==> after[key] == before[key]
        }
}

/// The entries a storage trie is left with are told by the words its slots were written.
proof fn lemma_leaves_slots(
    before: Map<Seq<u8>, Seq<u8>>,
    storage: HashedStorageSorted,
    after: Map<Seq<u8>, Seq<u8>>,
)
    requires
        leaves_slots(before, storage.storage_slots@, storage.wiped, after),
    ensures
        slots_after(before, Some(storage)) == after,
{
    let written = storage.storage_slots@;
    let changes = slot_changes(written);
    let expected = slots_after(before, Some(storage));
    assert forall|key: Seq<u8>| (#[trigger] expected.contains_key(key) <==> after.contains_key(key)) && (
    after.contains_key(key) ==> expected[key] == after[key]) by {
        if exists|i: int| is_entry_of(written, key, i) {
            let i = choose|i: int| is_entry_of(written, key, i);
            assert(is_entry_of(written, key, i));
            assert(changes.contains_key(key));
            law_zero_word(written[i].1);
            assert(holds_word(after, written[i].0, written[i].1));
        } else {
            assert(names_none(written, key)) by {
                assert forall|i: int| 0 <= i < written.len() implies unpacked(
                    (#[trigger] written[i]).0@,
                ) != key by {
                    assert(!is_entry_of(written, key, i));
                }
            }
            assert(!changes.contains_key(key));
            assert(after.contains_key(key) <==> !storage.wiped && before.contains_key(key));
        }
    }
    assert(expected =~= after);
}

/// The storage root an account ends the block with, where something was written to its storage, is
/// that of the trie with each slot at the word it was written, and the others as they were or, where
/// the storage was dropped, gone.
pub proof fn law_storage_root_of_words(
    nodes: Map<[u8; 32], Seq<u8>>,
    root: [u8; 32],
    entries: Map<Seq<u8>, Seq<u8>>,
    hashed_address: [u8; 32],
    account: Option<TrieAccount>,
    before: Map<Seq<u8>, Seq<u8>>,
    storage: HashedStorageSorted,
    after: Map<Seq<u8>, Seq<u8>>,
)
    requires
        commits(nodes, root, entries),
        records(entries, hashed_address, account),
        account matches Some(account) ==> commits(nodes, account.storage_root, before),
        account is None ==> forall|key: Seq<u8>| !before.contains_key(key),
        leaves_slots(before, storage.storage_slots@, storage.wiped, after),
    ensures
        storage_root_after(nodes, root, hashed_address, Some(storage)) matches Ok(storage_root)
            ==> storage_root == keccak(trie_rlp(after, MAX_NIBBLES as nat)),
        holds_every_node(nodes, entries) && (account is None || storage.wiped || holds_every_node(
            nodes,
            before,
        )) ==> storage_root_after(nodes, root, hashed_address, Some(storage)) == Ok::<
            [u8; 32],
            PathError,
        >(keccak(trie_rlp(after, MAX_NIBBLES as nat))),
{
    lemma_leaves_slots(before, storage, after);
    if holds_every_node(nodes, entries) {
        law_holds_where(nodes, root, entries, Reach::of_key(unpacked(hashed_address@)));
    }
    if account is Some && holds_every_node(nodes, before) {
        law_holds_where(
            nodes,
            account->Some_0.storage_root,
            before,
            Reach::of_changes(slot_changes(storage.storage_slots@)),
        );
    }
    law_storage_root(nodes, root, entries, hashed_address, account, before, Some(storage));
}

/// Whether `after` is what an account's storage trie that held `before` is left with: as it was where
/// nothing was written to it.
pub open spec fn leaves_storage(
    before: Map<Seq<u8>, Seq<u8>>,
    state: HashedPostStateSorted,
    hashed_address: [u8; 32],
    after: Map<Seq<u8>, Seq<u8>>,
) -> bool {
    if storage_entries(state.storages).contains_key(hashed_address) {
        let storage = storage_entries(state.storages)[hashed_address];
        leaves_slots(before, storage.storage_slots@, storage.wiped, after)
    } else {
        after == before
    }
}

/// Whether the entries of a state trie hold an account of exactly these fields.
pub open spec fn holds_account(
    entries: Map<Seq<u8>, Seq<u8>>,
    hashed_address: [u8; 32],
    nonce: u64,
    balance: [u8; 32],
    storage_root: [u8; 32],
    code_hash: [u8; 32],
) -> bool {
    &&& entries.contains_key(unpacked(hashed_address@))
    &&& entries[unpacked(hashed_address@)] == account_rlp(
        TrieAccount { nonce, balance, storage_root, code_hash },
    )
}

/// Whether `after` is what a state trie that held `before` is left with, given the entries `storages`
/// each account's storage trie is left with: each account left behind with its nonce and its balance,
/// the hash of its code, or that of no code where it has none, and the root of its storage, each
/// account removed without an entry, and every other as it was.
pub open spec fn leaves_accounts(
    before: Map<Seq<u8>, Seq<u8>>,
    state: HashedPostStateSorted,
    storages: spec_fn([u8; 32]) -> Map<Seq<u8>, Seq<u8>>,
    after: Map<Seq<u8>, Seq<u8>>,
) -> bool {
    &&& forall|i: int|
        0 <= i < state.accounts@.len() ==> match (#[trigger] state.accounts@[i]).1 {
            None => !after.contains_key(unpacked(state.accounts@[i].0@)),
            Some(account) => {
                let storage_root = keccak(
                    trie_rlp(storages(state.accounts@[i].0), MAX_NIBBLES as nat),
                );
                &&& account.bytecode_hash matches Some(code_hash) ==> holds_account(
                    after,
                    state.accounts@[i].0,
                    account.nonce,
                    account.balance,
                    storage_root,
                    code_hash,
                )
                &&& account.bytecode_hash is None ==> holds_account(
                    after,
                    state.accounts@[i].0,
                    account.nonce,
                    account.balance,
                    storage_root,
                    keccak(Seq::empty()),
                )
            },
        }
    &&& forall|key: Seq<u8>|
        names_none(state.accounts@, key) ==> {
            &&& #[trigger] after.contains_key(key) <==> before.contains_key(key)
            &&& after.contains_key(key) ==> after[key] == before[key]
        }
}

/// The entries a state trie is left with are told by what each account was left with.
proof fn lemma_leaves_accounts(
    before: Map<Seq<u8>, Seq<u8>>,
    state: HashedPostStateSorted,
    slots: spec_fn([u8; 32]) -> Map<Seq<u8>, Seq<u8>>,
    storages: spec_fn([u8; 32]) -> Map<Seq<u8>, Seq<u8>>,
    after: Map<Seq<u8>, Seq<u8>>,
)
    requires
        forall|i: int|
            0 <= i < state.accounts@.len() && (#[trigger] state.accounts@[i]).1 is Some
                ==> leaves_storage(
                slots(state.accounts@[i].0),
                state,
                state.accounts@[i].0,
                storages(state.accounts@[i].0),
            ),
        leaves_accounts(before, state, storages, after),
    ensures
        overlay(before, world_changes(state, slots)) == after,
{
    let touched = state.accounts@;
    let changes = world_changes(state, slots);
    let expected = overlay(before, changes);
    assert forall|key: Seq<u8>| (#[trigger] expected.contains_key(key) <==> after.contains_key(key)) && (
    after.contains_key(key) ==> expected[key] == after[key]) by {
        if exists|i: int| is_entry_of(touched, key, i) {
            let i = choose|i: int| is_entry_of(touched, key, i);
            assert(is_entry_of(touched, key, i));
            assert(changes.contains_key(key));
            let hashed_address = touched[i].0;
            if touched[i].1 is Some {
                let storage = state.storage_under(hashed_address);
                assert(leaves_storage(
                    slots(hashed_address),
                    state,
                    hashed_address,
                    storages(hashed_address),
                ));
                if storage is Some {
                    lemma_leaves_slots(
                        slots(hashed_address),
                        storage->Some_0,
                        storages(hashed_address),
                    );
                }
                assert(slots_after(slots(hashed_address), storage) == storages(hashed_address));
            }
        } else {
            assert(names_none(touched, key)) by {
                assert forall|i: int| 0 <= i < touched.len() implies unpacked(
                    (#[trigger] touched[i]).0@,
                ) != key by {
                    assert(!is_entry_of(touched, key, i));
                }
            }
            assert(!changes.contains_key(key));
            assert(after.contains_key(key) <==> before.contains_key(key));
        }
    }
    assert(expected =~= after);
}

/// The state root a block ends with is that of the trie with each account it left behind at exactly
/// the nonce, the balance, the code and the storage it was left with, whatever its other fields, each
/// account it removed gone, and every other as it was.
pub proof fn law_state_root_of_accounts(
    nodes: Map<[u8; 32], Seq<u8>>,
    root: [u8; 32],
    entries: Map<Seq<u8>, Seq<u8>>,
    state: HashedPostStateSorted,
    accounts: spec_fn([u8; 32]) -> Option<TrieAccount>,
    slots: spec_fn([u8; 32]) -> Map<Seq<u8>, Seq<u8>>,
    storages: spec_fn([u8; 32]) -> Map<Seq<u8>, Seq<u8>>,
    after: Map<Seq<u8>, Seq<u8>>,
)
    requires
        commits(nodes, root, entries),
        forall|hashed_address: [u8; 32]| #[trigger]
            records(entries, hashed_address, accounts(hashed_address)),
        forall|hashed_address: [u8; 32]|
            match #[trigger] accounts(hashed_address) {
                Some(account) => commits(nodes, account.storage_root, slots(hashed_address)),
                None => no_keys(slots(hashed_address)),
            },
        forall|i: int|
            0 <= i < state.accounts@.len() && (#[trigger] state.accounts@[i]).1 is Some
                ==> leaves_storage(
                slots(state.accounts@[i].0),
                state,
                state.accounts@[i].0,
                storages(state.accounts@[i].0),
            ),
        leaves_accounts(entries, state, storages, after),
    ensures
        state_root_after(nodes, root, state) matches Ok(state_root) ==> state_root == keccak(
            trie_rlp(after, MAX_NIBBLES as nat),
        ),
        holds_every_node(nodes, entries) && (forall|hashed_address: [u8; 32]|
            (#[trigger] accounts(hashed_address)) is Some ==> holds_every_node(
                nodes,
                slots(hashed_address),
            )) ==> state_root_after(nodes, root, state) == Ok::<[u8; 32], StateRootError>(
            keccak(trie_rlp(after, MAX_NIBBLES as nat)),
        ),
{
    lemma_leaves_accounts(entries, state, slots, storages, after);
    if holds_every_node(nodes, entries) && (forall|hashed_address: [u8; 32]|
        (#[trigger] accounts(hashed_address)) is Some ==> holds_every_node(
            nodes,
            slots(hashed_address),
        )) {
        law_holds_where(nodes, root, entries, Reach::of_changes(world_changes(state, slots)));
        assert forall|i: int|
            0 <= i < state.accounts@.len() && (#[trigger] state.accounts@[i]).1 is Some implies
            holds_storage(
            nodes,
            accounts(state.accounts@[i].0),
            slots(state.accounts@[i].0),
            state.storage_under(state.accounts@[i].0),
        ) by {
            let hashed_address = state.accounts@[i].0;
            let storage = state.storage_under(hashed_address);
            if accounts(hashed_address) is Some && storage is Some {
                law_holds_where(
                    nodes,
                    accounts(hashed_address)->Some_0.storage_root,
                    slots(hashed_address),
                    Reach::of_changes(slot_changes(storage->Some_0.storage_slots@)),
                );
            }
        }
    }
    law_state_root(nodes, root, entries, state, accounts, slots);
}

/// An account a block left behind reads back under the state root with exactly what it was left
/// with, and one it removed is not there.
pub proof fn law_account_reads_back(
    state: HashedPostStateSorted,
    before: Map<Seq<u8>, Seq<u8>>,
    storages: spec_fn([u8; 32]) -> Map<Seq<u8>, Seq<u8>>,
    after: Map<Seq<u8>, Seq<u8>>,
    later: Map<[u8; 32], Seq<u8>>,
    state_root: [u8; 32],
    i: int,
)
    requires
        0 <= i < state.accounts@.len(),
        leaves_accounts(before, state, storages, after),
        commits(later, state_root, after),
        holds_trie(later, state_root, after, Reach::of_key(unpacked(state.accounts@[i].0@))),
    ensures
        match state.accounts@[i].1 {
            None => account_read(later, state_root, state.accounts@[i].0) == Ok::<
                Option<TrieAccount>,
                PathError,
            >(None),
            Some(left) => match account_read(later, state_root, state.accounts@[i].0) {
                Ok(Some(account)) => {
                    &&& account.nonce == left.nonce
                    &&& account.balance == left.balance
                    &&& account.storage_root == keccak(
                        trie_rlp(storages(state.accounts@[i].0), MAX_NIBBLES as nat),
                    )
                    &&& left.bytecode_hash matches Some(code_hash) ==> account.code_hash == code_hash
                    &&& left.bytecode_hash is None ==> account.code_hash == keccak(Seq::empty())
                },
                _ => false,
            },
        },
{
    let hashed_address = state.accounts@[i].0;
    let expected = match state.accounts@[i].1 {
        None => None,
        Some(left) => Some(
            TrieAccount {
                nonce: left.nonce,
                balance: left.balance,
                storage_root: keccak(trie_rlp(storages(hashed_address), MAX_NIBBLES as nat)),
                code_hash: match left.bytecode_hash {
                    Some(code_hash) => code_hash,
                    None => keccak(Seq::empty()),
                },
            },
        ),
    };
    assert(records(after, hashed_address, expected));
    law_account_read(later, state_root, after, hashed_address, expected);
}

/// A slot reads back under the state root at the word the storage trie was left with there: the word
/// it was written, and where it was not written the one it held, or zero where the storage was
/// dropped.
pub proof fn law_slot_reads_back(
    before: Map<Seq<u8>, Seq<u8>>,
    written: Seq<([u8; 32], [u8; 32])>,
    wiped: bool,
    after: Map<Seq<u8>, Seq<u8>>,
    later: Map<[u8; 32], Seq<u8>>,
    state_root: [u8; 32],
    world: Map<Seq<u8>, Seq<u8>>,
    hashed_address: [u8; 32],
    account: TrieAccount,
    hashed_slot: [u8; 32],
    word: [u8; 32],
)
    requires
        leaves_slots(before, written, wiped, after),
        commits(later, state_root, world),
        records(world, hashed_address, Some(account)),
        holds_trie(later, state_root, world, Reach::of_key(unpacked(hashed_address@))),
        commits(later, account.storage_root, after),
        holds_trie(later, account.storage_root, after, Reach::of_key(unpacked(hashed_slot@))),
        if names_none(written, unpacked(hashed_slot@)) {
            if wiped {
                forall|k: int| 0 <= k < 32 ==> #[trigger] word@[k] == 0
            } else {
                holds_word(before, hashed_slot, word)
            }
        } else {
            exists|j: int| 0 <= j < written.len() && #[trigger] written[j] == (hashed_slot, word)
        },
    ensures
        storage_read(later, state_root, hashed_address, hashed_slot) == Ok::<[u8; 32], PathError>(
            word,
        ),
{
    let key = unpacked(hashed_slot@);
    law_zero_word(word);
    if names_none(written, key) {
        assert(after.contains_key(key) <==> !wiped && before.contains_key(key));
    } else {
        let j = choose|j: int| 0 <= j < written.len() && #[trigger] written[j] == (hashed_slot, word);
        assert(holds_word(after, written[j].0, written[j].1));
    }
    assert(holds_word(after, hashed_slot, word));
    assert(records_word(after, hashed_slot, word));
    law_storage_read(
        later,
        state_root,
        world,
        hashed_address,
        Some(account),
        after,
        hashed_slot,
        word,
    );
}

/// Whether `changes` are what writing slots does to a storage trie: each slot is given the word it was
/// written, or removed where all bytes of that are zero, and nothing else is touched.
pub open spec fn changes_slots(
    written: Seq<([u8; 32], [u8; 32])>,
    changes: Map<Seq<u8>, Option<Seq<u8>>>,
) -> bool {
    &&& forall|j: int|
        0 <= j < written.len() ==> {
            &&& changes.contains_key(unpacked((#[trigger] written[j]).0@))
            &&& changes[unpacked(written[j].0@)] == if forall|k: int|
                0 <= k < 32 ==> #[trigger] written[j].1@[k] == 0 {
                None
            } else {
                Some(word_rlp(written[j].1))
            }
        }
    &&& forall|key: Seq<u8>| #[trigger] changes.contains_key(key) ==> !names_none(written, key)
}

/// Whatever the witness, the storage root of an account whose storage was written to is what an update
/// with the words written comes to, from the root it had, or from nothing where it had none or that
/// was dropped.
pub proof fn law_storage_update(
    nodes: Map<[u8; 32], Seq<u8>>,
    root: [u8; 32],
    hashed_address: [u8; 32],
    storage: HashedStorageSorted,
    changes: Map<Seq<u8>, Option<Seq<u8>>>,
)
    requires
        changes_slots(storage.storage_slots@, changes),
    ensures
        account_read(nodes, root, hashed_address) matches Ok(account) ==> storage_root_after(
            nodes,
            root,
            hashed_address,
            Some(storage),
        ) == updated_root(
            nodes,
            if storage.wiped || account is None {
                keccak(seq![0x80u8])
            } else {
                account->Some_0.storage_root
            },
            changes,
        ),
{
    let written = storage.storage_slots@;
    let made = slot_changes(written);
    assert forall|key: Seq<u8>| (#[trigger] made.contains_key(key) <==> changes.contains_key(key)) && (
    changes.contains_key(key) ==> made[key] == changes[key]) by {
        if made.contains_key(key) {
            let i = choose|i: int| is_entry_of(written, key, i);
            assert(is_entry_of(written, key, i));
            law_zero_word(written[i].1);
            assert(changes.contains_key(unpacked(written[i].0@)));
        } else if changes.contains_key(key) {
            let j = choose|j: int|
                0 <= j < written.len() && unpacked((#[trigger] written[j]).0@) == key;
            assert(is_entry_of(written, key, j));
        }
    }
    assert(made =~= changes);
}

/// Whatever the witness, the state root is what an update with each account left behind, over the
/// storage root it comes to, and without each account removed comes to, and there is none where any of
/// those storage roots or that update cannot be had.
pub proof fn law_state_update(
    nodes: Map<[u8; 32], Seq<u8>>,
    root: [u8; 32],
    state: HashedPostStateSorted,
    roots: spec_fn([u8; 32]) -> [u8; 32],
    changes: Map<Seq<u8>, Option<Seq<u8>>>,
)
    requires
        forall|i: int|
            0 <= i < state.accounts@.len() && (#[trigger] state.accounts@[i]).1 is Some
                ==> storage_root_after(
                nodes,
                root,
                state.accounts@[i].0,
                if storage_entries(state.storages).contains_key(state.accounts@[i].0) {
                    Some(storage_entries(state.storages)[state.accounts@[i].0])
                } else {
                    None
                },
            ) == Ok::<[u8; 32], PathError>(roots(state.accounts@[i].0)),
        forall|i: int|
            0 <= i < state.accounts@.len() ==> {
                &&& changes.contains_key(unpacked((#[trigger] state.accounts@[i]).0@))
                &&& changes[unpacked(state.accounts@[i].0@)] == match state.accounts@[i].1 {
                    None => None,
                    Some(left) => Some(
                        account_rlp(
                            TrieAccount {
                                nonce: left.nonce,
                                balance: left.balance,
                                storage_root: roots(state.accounts@[i].0),
                                code_hash: match left.bytecode_hash {
                                    Some(code_hash) => code_hash,
                                    None => keccak(Seq::empty()),
                                },
                            },
                        ),
                    ),
                }
            },
        forall|key: Seq<u8>| #[trigger]
            changes.contains_key(key) ==> !names_none(state.accounts@, key),
    ensures
        state_root_after(nodes, root, state) == match updated_root(nodes, root, changes) {
            Ok(state_root) => Ok(state_root),
            Err(_) => Err(StateRootError::CalculationFailed),
        },
{
    let touched = state.accounts@;
    let made = state_changes(nodes, root, state);
    assert forall|i: int| 0 <= i < touched.len() implies #[trigger] account_after(
        nodes,
        root,
        state,
        i,
    ) == Ok::<Option<Seq<u8>>, PathError>(changes[unpacked(touched[i].0@)]) by {
        assert(changes.contains_key(unpacked(touched[i].0@)));
    }
    assert forall|key: Seq<u8>| (#[trigger] made.contains_key(key) <==> changes.contains_key(key)) && (
    changes.contains_key(key) ==> made[key] == changes[key]) by {
        if made.contains_key(key) {
            let i = choose|i: int| is_entry_of(touched, key, i);
            assert(is_entry_of(touched, key, i));
            assert(changes.contains_key(unpacked(touched[i].0@)));
            assert(account_after(nodes, root, state, i) is Ok);
        } else if changes.contains_key(key) {
            let j = choose|j: int|
                0 <= j < touched.len() && unpacked((#[trigger] touched[j]).0@) == key;
            assert(is_entry_of(touched, key, j));
        }
    }
    assert(made =~= changes);
}

/// An account nothing was written to the storage of keeps the root it had, which for one that was not
/// there is that of storage that holds nothing. One that cannot be read has no storage root, and a
/// block that leaves such an account behind has no state root.
pub proof fn law_storage_left_alone(
    nodes: Map<[u8; 32], Seq<u8>>,
    root: [u8; 32],
    hashed_address: [u8; 32],
    storage: Option<HashedStorageSorted>,
    state: HashedPostStateSorted,
    i: int,
)
    ensures
        match account_read(nodes, root, hashed_address) {
            Err(error) => storage_root_after(nodes, root, hashed_address, storage) == Err::<
                [u8; 32],
                PathError,
            >(error),
            Ok(Some(account)) => storage_root_after(nodes, root, hashed_address, None) == Ok::<
                [u8; 32],
                PathError,
            >(account.storage_root),
            Ok(None) => storage_root_after(nodes, root, hashed_address, None) == Ok::<
                [u8; 32],
                PathError,
            >(keccak(seq![0x80u8])),
        },
        0 <= i < state.accounts@.len() && state.accounts@[i].1 is Some && storage_root_after(
            nodes,
            root,
            state.accounts@[i].0,
            if storage_entries(state.storages).contains_key(state.accounts@[i].0) {
                Some(storage_entries(state.storages)[state.accounts@[i].0])
            } else {
                None
            },
        ) is Err ==> state_root_after(nodes, root, state) is Err,
{
    if 0 <= i < state.accounts@.len() {
        let after = account_after(nodes, root, state, i);
        assert(after is Err ==> state_root_after(nodes, root, state) is Err);
    }
}

} // verus!
