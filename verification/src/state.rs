//! The state a block leaves behind, by hashed key, as recomputing the state root takes it.

use alloy_primitives::map::B256Map;
use vstd::prelude::*;

use crate::account::{padded, word_rlp, TrieAccount};
use crate::changes::precedes;
use crate::index::{insert_storage, no_storages, storage_at, storage_entries};
use crate::keccak::keccak;
use crate::nibbles::unpacked;

verus! {

/// An account as execution leaves it.
#[derive(Debug, Clone, Copy)]
pub struct Account {
    /// Transactions the account has sent.
    pub nonce: u64,
    /// What the account holds, as a big-endian number.
    pub balance: [u8; 32],
    /// The hash of the account's bytecode, where it has any.
    pub bytecode_hash: Option<[u8; 32]>,
}

/// What execution wrote to an account's storage, ordered by hashed slot.
#[derive(Debug)]
pub struct HashedStorageSorted {
    /// The word each slot was left at, as a big-endian number.
    pub storage_slots: Vec<([u8; 32], [u8; 32])>,
    /// Whether the storage the account held before was dropped.
    pub wiped: bool,
}

/// What execution left of the accounts it touched, ordered by hashed address.
#[derive(Debug)]
pub struct HashedPostStateSorted {
    /// Each account, or `None` where it was removed.
    pub accounts: Vec<([u8; 32], Option<Account>)>,
    /// What was written to the storage of each account.
    pub storages: B256Map<HashedStorageSorted>,
}

/// The word that is zero.
pub open spec fn zero_word() -> [u8; 32] {
    padded(Seq::empty())
}

/// Whether keys are in order.
pub open spec fn keys_in_order<T>(entries: Seq<([u8; 32], T)>) -> bool {
    forall|i: int, j: int|
        0 <= i < j < entries.len() ==> precedes((#[trigger] entries[i]).0@, (#[trigger] entries[j]).0@)
}

/// The entries of a list by key, the last of those under one key standing.
pub open spec fn by_key<T>(entries: Seq<([u8; 32], T)>) -> Map<[u8; 32], T>
    decreases entries.len(),
{
    if entries.len() == 0 {
        Map::empty()
    } else {
        by_key(entries.drop_last()).insert(entries.last().0, entries.last().1)
    }
}

/// Whether the entry at `i` is the one of the key whose nibbles these are.
pub open spec fn is_entry_of<T>(entries: Seq<([u8; 32], T)>, key: Seq<u8>, i: int) -> bool {
    0 <= i < entries.len() && unpacked(entries[i].0@) == key
}

/// What writing a word to a slot does to the storage trie: a slot left at zero is removed.
pub open spec fn slot_change(word: [u8; 32]) -> Option<Seq<u8>> {
    if word == zero_word() {
        None
    } else {
        Some(word_rlp(word))
    }
}

/// What writing slots does to the storage trie, by nibbles of the hashed slot.
pub open spec fn slot_changes(slots: Seq<([u8; 32], [u8; 32])>) -> Map<Seq<u8>, Option<Seq<u8>>> {
    Map::new(
        |key: Seq<u8>| exists|i: int| is_entry_of(slots, key, i),
        |key: Seq<u8>| slot_change(slots[choose|i: int| is_entry_of(slots, key, i)].1),
    )
}

/// The account the state trie records once execution is done, its storage rooted at `storage_root`.
pub open spec fn recorded(account: Account, storage_root: [u8; 32]) -> TrieAccount {
    TrieAccount {
        nonce: account.nonce,
        balance: account.balance,
        storage_root,
        code_hash: match account.bytecode_hash {
            Some(code_hash) => code_hash,
            None => keccak(Seq::empty()),
        },
    }
}

impl HashedStorageSorted {
    /// The slots are ordered, and no more than an index tells apart.
    pub open spec fn well_formed(&self) -> bool {
        &&& keys_in_order(self.storage_slots@)
        &&& self.storage_slots@.len() <= u32::MAX
    }
}

impl HashedPostStateSorted {
    /// The accounts and the slots of each are ordered, and no more than an index tells apart.
    pub open spec fn well_formed(&self) -> bool {
        &&& keys_in_order(self.accounts@)
        &&& self.accounts@.len() <= u32::MAX
        &&& forall|hashed_address: [u8; 32]| #[trigger]
            storage_entries(self.storages).contains_key(hashed_address) ==> storage_entries(
                self.storages,
            )[hashed_address].well_formed()
    }

    /// What was written to the storage of an account.
    pub open spec fn storage_under(&self, hashed_address: [u8; 32]) -> Option<HashedStorageSorted> {
        if storage_entries(self.storages).contains_key(hashed_address) {
            Some(storage_entries(self.storages)[hashed_address])
        } else {
            None
        }
    }

    /// The state of ordered accounts and of what was written to the storage of each, the last write
    /// to an account standing.
    pub fn new(
        accounts: Vec<([u8; 32], Option<Account>)>,
        storages: Vec<([u8; 32], HashedStorageSorted)>,
    ) -> (state: Self)
        ensures
            state.accounts@ == accounts@,
            storage_entries(state.storages) == by_key(storages@),
            keys_in_order(accounts@) && accounts@.len() <= u32::MAX && (forall|i: int|
                0 <= i < storages@.len() ==> (#[trigger] storages@[i]).1.well_formed())
                ==> state.well_formed(),
    {
        let ghost given = storages@;
        let mut held = no_storages();
        assert(storage_entries(held) =~= by_key(given.take(0)));
        for (hashed_address, storage) in entries: storages
            invariant
                entries.seq() == given,
                storage_entries(held) == by_key(given.take(entries.index())),
        {
            proof {
                let at = entries.index();
                assert(given.take(at + 1).drop_last() =~= given.take(at));
            }
            insert_storage(&mut held, hashed_address, storage);
        }
        proof {
            assert(given.take(given.len() as int) =~= given);
            lemma_by_key(given);
        }
        HashedPostStateSorted { accounts, storages: held }
    }

    /// What was written to the storage of an account.
    pub fn storage_of(&self, hashed_address: &[u8; 32]) -> (storage: Option<&HashedStorageSorted>)
        ensures
            match self.storage_under(*hashed_address) {
                Some(found) => storage is Some && *storage->Some_0 == found,
                None => storage is None,
            },
    {
        storage_at(&self.storages, *hashed_address)
    }
}

/// What was written to the storage of an account is what the state holds under its hashed address.
pub proof fn law_storage_under(state: HashedPostStateSorted, hashed_address: [u8; 32])
    ensures
        storage_entries(state.storages).contains_key(hashed_address) ==> state.storage_under(
            hashed_address,
        ) == Some(storage_entries(state.storages)[hashed_address]),
        !storage_entries(state.storages).contains_key(hashed_address) ==> state.storage_under(
            hashed_address,
        ) is None,
{
}

/// The last entry of a list under a key is the one that stands.
pub proof fn law_last_entry_stands<T>(entries: Seq<([u8; 32], T)>, i: int)
    requires
        0 <= i < entries.len(),
        forall|j: int| i < j < entries.len() ==> (#[trigger] entries[j]).0 != entries[i].0,
    ensures
        by_key(entries).contains_key(entries[i].0),
        by_key(entries)[entries[i].0] == entries[i].1,
    decreases entries.len(),
{
    if i < entries.len() - 1 {
        let front = entries.drop_last();
        assert(entries[entries.len() - 1].0 != entries[i].0);
        assert forall|j: int| i < j < front.len() implies (#[trigger] front[j]).0 != front[i].0 by {
            assert(entries[j].0 != entries[i].0);
        }
        law_last_entry_stands(front, i);
    }
}

/// A key stands for something exactly where an entry of the list is under it.
pub proof fn law_keys_are_entries<T>(entries: Seq<([u8; 32], T)>, key: [u8; 32])
    ensures
        by_key(entries).contains_key(key) <==> exists|i: int|
            0 <= i < entries.len() && (#[trigger] entries[i]).0 == key,
    decreases entries.len(),
{
    if entries.len() > 0 {
        let front = entries.drop_last();
        let last = entries.len() - 1;
        law_keys_are_entries(front, key);
        if by_key(entries).contains_key(key) && key != entries[last].0 {
            let i = choose|i: int| 0 <= i < front.len() && (#[trigger] front[i]).0 == key;
            assert(entries[i].0 == key);
        }
        if exists|i: int| 0 <= i < entries.len() && (#[trigger] entries[i]).0 == key {
            let i = choose|i: int| 0 <= i < entries.len() && (#[trigger] entries[i]).0 == key;
            if i < last {
                assert(front[i].0 == key);
            }
        }
    }
}

/// Every entry of a list by key is one of the list.
proof fn lemma_by_key<T>(entries: Seq<([u8; 32], T)>)
    ensures
        forall|key: [u8; 32]| #[trigger]
            by_key(entries).contains_key(key) ==> exists|i: int|
                0 <= i < entries.len() && (#[trigger] entries[i]).1 == by_key(entries)[key],
    decreases entries.len(),
{
    if entries.len() > 0 {
        lemma_by_key(entries.drop_last());
        assert forall|key: [u8; 32]| #[trigger] by_key(entries).contains_key(key) implies exists|
            i: int,
        | 0 <= i < entries.len() && (#[trigger] entries[i]).1 == by_key(entries)[key] by {
            if key == entries.last().0 {
                assert(entries[entries.len() - 1].1 == by_key(entries)[key]);
            } else {
                let front = entries.drop_last();
                let i = choose|i: int|
                    0 <= i < front.len() && (#[trigger] front[i]).1 == by_key(front)[key];
                assert(entries[i].1 == by_key(entries)[key]);
            }
        }
    }
}

} // verus!
