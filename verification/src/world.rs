//! What the state promises of accounts, of their storage and of the root a block ends with.

use vstd::prelude::*;

use crate::account::{
    account_of_rlp, account_rlp, after_string, fields_of, lemma_account_width, lemma_stripped,
    lemma_word_width, stripped, word_of, word_rlp, TrieAccount,
};
use crate::canonical::{lemma_be_len, lemma_be_round_trip, lemma_list_read, lemma_string_read};
use crate::changes::lemma_unpacked;
use crate::descent::lemma_updated;
use crate::error::PathError;
use crate::keccak::{empty_root, keccak, lemma_digest_of};
use crate::laws::{
    commits, held, holds_trie, lacks, law_indexing_verifies, law_read, law_update_root,
    told_by_hash,
};
use crate::nibbles::{is_path, unpacked, MAX_NIBBLES};
use crate::node::{empty_rlp, item_len, MAX_LEAF_VALUE};
use crate::outcome::{applicable, is_hashed, node_at_path, Reach};
use crate::path::{
    account_after, account_read, indexed, state_changes, state_root_after, storage_read,
    storage_root_after, updated_root,
};
use crate::recorded::recordable;
use crate::rlp::{be_bytes, rlp_string, string_of};
use crate::state::{
    is_entry_of, recorded, slot_change, slot_changes, HashedPostStateSorted, HashedStorageSorted,
};
use crate::trie::{lemma_overlay_nothing, lemma_trie_empty, no_keys, overlay, starts_with, trie_rlp};

verus! {

/// What follows a string is what was written behind it.
proof fn lemma_after_string(bytes: Seq<u8>, rest: Seq<u8>)
    requires
        bytes.len() < 65536,
    ensures
        string_of(rlp_string(bytes) + rest) == Ok::<Seq<u8>, alloy_rlp::Error>(bytes),
        after_string(rlp_string(bytes) + rest) == rest,
{
    lemma_string_read(bytes, rest);
    let buf = rlp_string(bytes) + rest;
    assert(item_len(buf) == Ok::<nat, PathError>(rlp_string(bytes).len()));
    assert(buf.skip(rlp_string(bytes).len() as int) =~= rest);
}

/// A word is read back from the RLP it is written in.
pub proof fn law_word_round_trip(word: [u8; 32], rest: Seq<u8>)
    ensures
        word_of(word_rlp(word) + rest) == Ok::<[u8; 32], alloy_rlp::Error>(word),
        after_string(word_rlp(word) + rest) == rest,
{
    lemma_stripped(word@);
    lemma_after_string(stripped(word@), rest);
    lemma_digest_of(word);
}

/// An account is read back from the RLP it is written in.
pub proof fn law_account_round_trip(account: TrieAccount)
    ensures
        account_of_rlp(account_rlp(account)) == Ok::<TrieAccount, alloy_rlp::Error>(account),
{
    let nonce = be_bytes(account.nonce as nat);
    let fourth = rlp_string(account.code_hash@);
    let third = rlp_string(account.storage_root@) + fourth;
    let second = word_rlp(account.balance) + third;
    let payload = rlp_string(nonce) + second;
    assert(rlp_string(nonce) + word_rlp(account.balance) + rlp_string(account.storage_root@)
        + rlp_string(account.code_hash@) =~= payload);
    lemma_be_len(account.nonce as nat);
    lemma_be_round_trip(account.nonce as nat);
    lemma_after_string(nonce, second);
    law_word_round_trip(account.balance, third);
    lemma_after_string(account.storage_root@, fourth);
    lemma_after_string(account.code_hash@, Seq::empty());
    assert(fourth + Seq::empty() =~= fourth);
    lemma_digest_of(account.storage_root);
    lemma_digest_of(account.code_hash);
    lemma_account_width(account);
    lemma_list_read(payload);
    assert(fields_of(payload) == Ok::<TrieAccount, alloy_rlp::Error>(account));
}

/// Whether the state trie's entries record `account` under a hashed address.
pub open spec fn records(
    entries: Map<Seq<u8>, Seq<u8>>,
    hashed_address: [u8; 32],
    account: Option<TrieAccount>,
) -> bool {
    held(entries, unpacked(hashed_address@)) == match account {
        Some(account) => Some(account_rlp(account)),
        None => None,
    }
}

/// A read of an account comes to the one the state trie records, or the witness lacks a node along
/// its hashed address.
pub proof fn law_account_read(
    nodes: Map<[u8; 32], Seq<u8>>,
    root: [u8; 32],
    entries: Map<Seq<u8>, Seq<u8>>,
    hashed_address: [u8; 32],
    account: Option<TrieAccount>,
)
    requires
        commits(nodes, root, entries),
        records(entries, hashed_address, account),
    ensures
        match account_read(nodes, root, hashed_address) {
            Ok(found) => found == account,
            Err(error) => lacks(
                nodes,
                root,
                entries,
                Reach::of_key(unpacked(hashed_address@)),
                error,
            ),
        },
        holds_trie(nodes, root, entries, Reach::of_key(unpacked(hashed_address@)))
            ==> account_read(nodes, root, hashed_address) == Ok::<Option<TrieAccount>, PathError>(
            account,
        ),
{
    law_read(nodes, root, entries, hashed_address);
    if account is Some {
        law_account_round_trip(account->Some_0);
    }
}

/// Whether the entries of a storage trie leave `word` at a hashed slot, which is zero where nothing
/// is recorded.
pub open spec fn records_word(
    slots: Map<Seq<u8>, Seq<u8>>,
    hashed_slot: [u8; 32],
    word: [u8; 32],
) -> bool {
    held(slots, unpacked(hashed_slot@)) == slot_change(word)
}

/// A read of a slot comes to the word the account's storage trie records there, or the witness lacks
/// a node along the hashed address or the hashed slot. An account that is not there has every slot
/// at zero.
pub proof fn law_storage_read(
    nodes: Map<[u8; 32], Seq<u8>>,
    root: [u8; 32],
    entries: Map<Seq<u8>, Seq<u8>>,
    hashed_address: [u8; 32],
    account: Option<TrieAccount>,
    slots: Map<Seq<u8>, Seq<u8>>,
    hashed_slot: [u8; 32],
    word: [u8; 32],
)
    requires
        commits(nodes, root, entries),
        records(entries, hashed_address, account),
        account matches Some(account) ==> commits(nodes, account.storage_root, slots),
        account is None ==> no_keys(slots),
        records_word(slots, hashed_slot, word),
    ensures
        match storage_read(nodes, root, hashed_address, hashed_slot) {
            Ok(found) => found == word,
            Err(error) => lacks(
                nodes,
                root,
                entries,
                Reach::of_key(unpacked(hashed_address@)),
                error,
            ) || (account is Some && lacks(
                nodes,
                account->Some_0.storage_root,
                slots,
                Reach::of_key(unpacked(hashed_slot@)),
                error,
            )),
        },
        holds_trie(nodes, root, entries, Reach::of_key(unpacked(hashed_address@))) && (
        account matches Some(account) ==> holds_trie(
            nodes,
            account.storage_root,
            slots,
            Reach::of_key(unpacked(hashed_slot@)),
        )) ==> storage_read(nodes, root, hashed_address, hashed_slot) == Ok::<[u8; 32], PathError>(
            word,
        ),
{
    law_account_read(nodes, root, entries, hashed_address, account);
    match account {
        None => {
            assert(!slots.contains_key(unpacked(hashed_slot@)));
        },
        Some(account) => {
            law_read(nodes, account.storage_root, slots, hashed_slot);
            law_word_round_trip(word, Seq::empty());
            assert(word_rlp(word) + Seq::empty() =~= word_rlp(word));
        },
    }
}

/// The entries an account's storage trie ends the block with: what it held, or nothing where that
/// was wiped, with the slots execution wrote.
pub open spec fn slots_after(
    slots: Map<Seq<u8>, Seq<u8>>,
    storage: Option<HashedStorageSorted>,
) -> Map<Seq<u8>, Seq<u8>> {
    match storage {
        None => slots,
        Some(storage) => overlay(
            if storage.wiped {
                Map::empty()
            } else {
                slots
            },
            slot_changes(storage.storage_slots@),
        ),
    }
}

/// Writing slots is something a storage trie can take.
proof fn lemma_slots_applicable(slots: Seq<([u8; 32], [u8; 32])>)
    ensures
        applicable(slot_changes(slots), MAX_NIBBLES as nat),
{
    let changes = slot_changes(slots);
    assert forall|key: Seq<u8>| #[trigger] changes.contains_key(key) implies key.len() == 64
        && is_path(key) && (changes[key] matches Some(value) ==> value.len() <= MAX_LEAF_VALUE) by {
        let i = choose|i: int| is_entry_of(slots, key, i);
        assert(is_entry_of(slots, key, i));
        lemma_unpacked(slots[i].0@);
        lemma_word_width(slots[i].1);
    }
}

/// A trie that holds nothing is committed to by the empty root, whatever the witness holds.
proof fn lemma_commits_nothing(nodes: Map<[u8; 32], Seq<u8>>, changes: Map<Seq<u8>, Option<Seq<u8>>>)
    requires
        applicable(changes, MAX_NIBBLES as nat),
    ensures
        updated_root(nodes, empty_root(), changes) == Ok::<[u8; 32], PathError>(
            keccak(trie_rlp(overlay(Map::empty(), changes), MAX_NIBBLES as nat)),
        ),
{
    let entries = Map::<Seq<u8>, Seq<u8>>::empty();
    lemma_trie_empty(entries, 64);
    if no_keys(changes) {
        lemma_overlay_nothing(entries, changes);
    } else {
        lemma_updated(nodes, empty_rlp(), changes, 64);
    }
}

/// Whether the witness holds what writing to an account's storage asks for of the trie it had.
/// Storage that is wiped, or left alone, asks for nothing of it.
pub open spec fn holds_storage(
    nodes: Map<[u8; 32], Seq<u8>>,
    account: Option<TrieAccount>,
    slots: Map<Seq<u8>, Seq<u8>>,
    storage: Option<HashedStorageSorted>,
) -> bool {
    match (account, storage) {
        (Some(account), Some(storage)) => storage.wiped || holds_trie(
            nodes,
            account.storage_root,
            slots,
            Reach::of_changes(slot_changes(storage.storage_slots@)),
        ),
        _ => true,
    }
}

/// The storage root an account ends the block with is that of the slots it is left with, or the
/// witness lacks a node along the hashed address, or one of those writing to the storage asks for.
pub proof fn law_storage_root(
    nodes: Map<[u8; 32], Seq<u8>>,
    root: [u8; 32],
    entries: Map<Seq<u8>, Seq<u8>>,
    hashed_address: [u8; 32],
    account: Option<TrieAccount>,
    slots: Map<Seq<u8>, Seq<u8>>,
    storage: Option<HashedStorageSorted>,
)
    requires
        commits(nodes, root, entries),
        records(entries, hashed_address, account),
        account matches Some(account) ==> commits(nodes, account.storage_root, slots),
        account is None ==> no_keys(slots),
    ensures
        match storage_root_after(nodes, root, hashed_address, storage) {
            Ok(storage_root) => storage_root == keccak(
                trie_rlp(slots_after(slots, storage), MAX_NIBBLES as nat),
            ),
            Err(error) => lacks(
                nodes,
                root,
                entries,
                Reach::of_key(unpacked(hashed_address@)),
                error,
            ) || (account is Some && storage is Some && !storage->Some_0.wiped && lacks(
                nodes,
                account->Some_0.storage_root,
                slots,
                Reach::of_changes(slot_changes(storage->Some_0.storage_slots@)),
                error,
            )),
        },
        holds_trie(nodes, root, entries, Reach::of_key(unpacked(hashed_address@)))
            && holds_storage(nodes, account, slots, storage) ==> storage_root_after(
            nodes,
            root,
            hashed_address,
            storage,
        ) == Ok::<[u8; 32], PathError>(
            keccak(trie_rlp(slots_after(slots, storage), MAX_NIBBLES as nat)),
        ),
{
    law_account_read(nodes, root, entries, hashed_address, account);
    if account is None {
        assert(slots =~= Map::empty());
        lemma_trie_empty(slots, 64);
    }
    if storage is Some {
        let storage = storage->Some_0;
        let changes = slot_changes(storage.storage_slots@);
        lemma_slots_applicable(storage.storage_slots@);
        lemma_commits_nothing(nodes, changes);
        if !storage.wiped && account is Some {
            law_update_root(nodes, account->Some_0.storage_root, slots, changes);
        }
    }
}

/// What a block leaves the state trie with, given the slots each account's storage trie held.
pub open spec fn world_changes(
    state: HashedPostStateSorted,
    slots: spec_fn([u8; 32]) -> Map<Seq<u8>, Seq<u8>>,
) -> Map<Seq<u8>, Option<Seq<u8>>> {
    Map::new(
        |key: Seq<u8>| exists|i: int| is_entry_of(state.accounts@, key, i),
        |key: Seq<u8>|
            {
                let (hashed_address, account) = state.accounts@[choose|i: int|
                    is_entry_of(state.accounts@, key, i)];
                match account {
                    None => None,
                    Some(account) => Some(
                        account_rlp(
                            recorded(
                                account,
                                keccak(
                                    trie_rlp(
                                        slots_after(
                                            slots(hashed_address),
                                            state.storage_under(hashed_address),
                                        ),
                                        MAX_NIBBLES as nat,
                                    ),
                                ),
                            ),
                        ),
                    ),
                }
            },
    )
}

/// What a witness holds along changed keys it holds along any one of them.
proof fn lemma_holds_key(
    nodes: Map<[u8; 32], Seq<u8>>,
    root: [u8; 32],
    entries: Map<Seq<u8>, Seq<u8>>,
    changes: Map<Seq<u8>, Option<Seq<u8>>>,
    key: Seq<u8>,
)
    requires
        holds_trie(nodes, root, entries, Reach::of_changes(changes)),
        changes.contains_key(key),
    ensures
        holds_trie(nodes, root, entries, Reach::of_key(key)),
{
    let (one, every) = (Reach::of_key(key), Reach::of_changes(changes));
    assert forall|path: Seq<u8>| #[trigger]
        is_hashed(entries, MAX_NIBBLES as nat, path) && one.reaches(path) implies nodes.contains_key(
        keccak(node_at_path(entries, MAX_NIBBLES as nat, path)),
    ) by {
        assert(every.keys.contains(key));
        assert(starts_with(key, path));
        assert(every.reaches(path));
    }
}

/// What the state trie is to record of the account at `i`, given the slots each account's storage
/// trie held.
spec fn account_left(
    state: HashedPostStateSorted,
    slots: spec_fn([u8; 32]) -> Map<Seq<u8>, Seq<u8>>,
    i: int,
) -> Option<Seq<u8>> {
    let (hashed_address, account) = state.accounts@[i];
    match account {
        None => None,
        Some(account) => {
            let after = slots_after(slots(hashed_address), state.storage_under(hashed_address));
            Some(account_rlp(recorded(account, keccak(trie_rlp(after, MAX_NIBBLES as nat)))))
        },
    }
}

/// The state root a block ends with commits to the state trie with every account it touched
/// recorded over the root of the storage it is left with. It is owed wherever the witness holds
/// what the changes to the state trie ask for, and what writing to the storage of each account
/// left behind does. Where the witness leaves something out there is no root or that one.
pub proof fn law_state_root(
    nodes: Map<[u8; 32], Seq<u8>>,
    root: [u8; 32],
    entries: Map<Seq<u8>, Seq<u8>>,
    state: HashedPostStateSorted,
    accounts: spec_fn([u8; 32]) -> Option<TrieAccount>,
    slots: spec_fn([u8; 32]) -> Map<Seq<u8>, Seq<u8>>,
)
    requires
        commits(nodes, root, entries),
        forall|hashed_address: [u8; 32]| #[trigger]
            records(entries, hashed_address, accounts(hashed_address)),
        forall|hashed_address: [u8; 32]|
            match #[trigger] accounts(hashed_address) {
                Some(account) => commits(nodes, account.storage_root, slots(hashed_address)),
                None => no_keys(slots(hashed_address)),
            },
    ensures
        state_root_after(nodes, root, state) matches Ok(after) ==> after == keccak(
            trie_rlp(overlay(entries, world_changes(state, slots)), MAX_NIBBLES as nat),
        ),
        holds_trie(nodes, root, entries, Reach::of_changes(world_changes(state, slots))) && (
        forall|i: int|
            0 <= i < state.accounts@.len() && (#[trigger] state.accounts@[i]).1 is Some
                ==> holds_storage(
                nodes,
                accounts(state.accounts@[i].0),
                slots(state.accounts@[i].0),
                state.storage_under(state.accounts@[i].0),
            )) ==> state_root_after(nodes, root, state) is Ok,
{
    let (left, right) = (state_changes(nodes, root, state), world_changes(state, slots));
    let held = holds_trie(nodes, root, entries, Reach::of_changes(right)) && (forall|i: int|
        0 <= i < state.accounts@.len() && (#[trigger] state.accounts@[i]).1 is Some
            ==> holds_storage(
            nodes,
            accounts(state.accounts@[i].0),
            slots(state.accounts@[i].0),
            state.storage_under(state.accounts@[i].0),
        ));
    assert forall|i: int| 0 <= i < state.accounts@.len() implies (#[trigger] account_after(
        nodes,
        root,
        state,
        i,
    ) matches Ok(value) ==> value == account_left(state, slots, i)) && (held ==> account_after(
        nodes,
        root,
        state,
        i,
    ) is Ok) by {
        let hashed_address = state.accounts@[i].0;
        assert(records(entries, hashed_address, accounts(hashed_address)));
        law_storage_root(
            nodes,
            root,
            entries,
            hashed_address,
            accounts(hashed_address),
            slots(hashed_address),
            state.storage_under(hashed_address),
        );
        if held {
            assert(is_entry_of(state.accounts@, unpacked(hashed_address@), i));
            lemma_holds_key(nodes, root, entries, right, unpacked(hashed_address@));
        }
    }
    if forall|i: int|
        0 <= i < state.accounts@.len() ==> #[trigger] account_after(nodes, root, state, i) is Ok {
        lemma_world_changes(nodes, root, state, slots);
        law_update_root(nodes, root, entries, left);
    }
}

/// Where every storage root could be recomputed, the changes to the state trie are those that record
/// what each account is left with, and ones it can take.
proof fn lemma_world_changes(
    nodes: Map<[u8; 32], Seq<u8>>,
    root: [u8; 32],
    state: HashedPostStateSorted,
    slots: spec_fn([u8; 32]) -> Map<Seq<u8>, Seq<u8>>,
)
    requires
        forall|i: int|
            0 <= i < state.accounts@.len() ==> #[trigger] account_after(nodes, root, state, i)
                == Ok::<Option<Seq<u8>>, PathError>(account_left(state, slots, i)),
    ensures
        state_changes(nodes, root, state) == world_changes(state, slots),
        applicable(world_changes(state, slots), MAX_NIBBLES as nat),
{
    let (left, right) = (state_changes(nodes, root, state), world_changes(state, slots));
    assert forall|key: Seq<u8>| left.contains_key(key) == #[trigger] right.contains_key(key) && (
    right.contains_key(key) ==> left[key] == right[key]) by {
        if right.contains_key(key) {
            let i = choose|i: int| is_entry_of(state.accounts@, key, i);
            assert(is_entry_of(state.accounts@, key, i));
            assert(account_after(nodes, root, state, i) is Ok);
        }
    }
    assert(left =~= right);
    assert forall|key: Seq<u8>| #[trigger] right.contains_key(key) implies key.len() == 64
        && is_path(key) && (right[key] matches Some(value) ==> value.len() <= MAX_LEAF_VALUE) by {
        let i = choose|i: int| is_entry_of(state.accounts@, key, i);
        assert(is_entry_of(state.accounts@, key, i));
        lemma_unpacked(state.accounts@[i].0@);
        if right[key] is Some {
            let hashed_address = state.accounts@[i].0;
            let account = state.accounts@[i].1->Some_0;
            let after = slots_after(slots(hashed_address), state.storage_under(hashed_address));
            lemma_account_width(recorded(account, keccak(trie_rlp(after, MAX_NIBBLES as nat))));
        }
    }
}

/// Whatever a witness holds, it can leave a block without a state root but never with a wrong one, as
/// long as the hash tells the state trie and the storage trie of every account in it.
pub proof fn law_bad_witness_never_misroots(
    witness: Seq<Vec<u8>>,
    entries: Map<Seq<u8>, Seq<u8>>,
    state: HashedPostStateSorted,
    accounts: spec_fn([u8; 32]) -> Option<TrieAccount>,
    slots: spec_fn([u8; 32]) -> Map<Seq<u8>, Seq<u8>>,
)
    requires
        recordable(entries, MAX_NIBBLES as nat),
        told_by_hash(witness, entries),
        forall|hashed_address: [u8; 32]| #[trigger]
            records(entries, hashed_address, accounts(hashed_address)),
        forall|hashed_address: [u8; 32]|
            match #[trigger] accounts(hashed_address) {
                Some(account) => {
                    &&& recordable(slots(hashed_address), MAX_NIBBLES as nat)
                    &&& account.storage_root == keccak(
                        trie_rlp(slots(hashed_address), MAX_NIBBLES as nat),
                    )
                    &&& told_by_hash(witness, slots(hashed_address))
                },
                None => no_keys(slots(hashed_address)),
            },
    ensures
        state_root_after(
            indexed(witness, witness.len()),
            keccak(trie_rlp(entries, MAX_NIBBLES as nat)),
            state,
        ) matches Ok(after) ==> after == keccak(
            trie_rlp(overlay(entries, world_changes(state, slots)), MAX_NIBBLES as nat),
        ),
{
    let nodes = indexed(witness, witness.len());
    law_indexing_verifies(witness, entries);
    assert forall|hashed_address: [u8; 32]|
        match #[trigger] accounts(hashed_address) {
            Some(account) => commits(nodes, account.storage_root, slots(hashed_address)),
            None => no_keys(slots(hashed_address)),
        } by {
        if accounts(hashed_address) is Some {
            law_indexing_verifies(witness, slots(hashed_address));
        }
    }
    law_state_root(
        nodes,
        keccak(trie_rlp(entries, MAX_NIBBLES as nat)),
        entries,
        state,
        accounts,
        slots,
    );
}

} // verus!
