//! What a state remembers of its reads: the accounts they found, and where each prefix of a key
//! stands.

use vstd::prelude::*;

use crate::account::TrieAccount;
use crate::descent::{branch_child, child_of, resolved, walked};
use crate::keccak::{empty_root, keccak};
use crate::nibbles::{path_of, unpacked};
use crate::node::{empty_rlp, node_of, NodeView};
use crate::path::{account_after, account_read, PrefixNode, PREFIX_NIBBLES};
use crate::state::HashedPostStateSorted;
use crate::trie::starts_with;

verus! {

/// The node a read of `key` goes on to from `node_rlp`, which it has reached `depth` nibbles along, and
/// the nibbles it has taken there. A read that ends at `node_rlp` goes on to none.
pub open spec fn next_reached(
    nodes: Map<[u8; 32], Seq<u8>>,
    node_rlp: Seq<u8>,
    key: Seq<u8>,
    depth: nat,
) -> Option<(nat, Seq<u8>)> {
    let left = key.skip(depth as int);
    match node_of(node_rlp) {
        Ok(NodeView::Extension { path, child }) if node_rlp != empty_rlp() && path_of(path).len() > 0
            && starts_with(left, path_of(path)) => match child_of(nodes, child) {
            Ok(child_rlp) => Some((depth + path_of(path).len(), child_rlp)),
            Err(_) => None,
        },
        Ok(NodeView::Branch { payload }) if node_rlp != empty_rlp() && left.len() > 0 => match branch_child(
            nodes,
            payload,
            left[0],
        ) {
            Ok(child_rlp) => Some((depth + 1, child_rlp)),
            Err(_) => None,
        },
        _ => None,
    }
}

/// The deepest node a read of `key` reaches from `node_rlp` on within the nibbles an entry is held
/// per, and the nibbles it has taken there.
pub open spec fn deepest_held(
    nodes: Map<[u8; 32], Seq<u8>>,
    node_rlp: Seq<u8>,
    key: Seq<u8>,
    depth: nat,
) -> (nat, Seq<u8>)
    decreases PREFIX_NIBBLES - depth,
{
    match next_reached(nodes, node_rlp, key, depth) {
        Some((further, child_rlp)) => if further <= PREFIX_NIBBLES {
            deepest_held(nodes, child_rlp, key, further)
        } else {
            (depth, node_rlp)
        },
        None => (depth, node_rlp),
    }
}

/// What is held for a prefix: the trie, the nibbles taken and the node reached.
pub open spec fn prefix_view(entry: Option<PrefixNode>) -> Option<([u8; 32], nat, Seq<u8>)> {
    match entry {
        Some((root, depth, node_rlp)) => Some((root, depth as nat, node_rlp@)),
        None => None,
    }
}

/// Where a read of `root` starts: at what is held for its prefix, where that is of the same trie, and
/// at the root otherwise.
pub open spec fn read_start(
    nodes: Map<[u8; 32], Seq<u8>>,
    root: [u8; 32],
    entry: Option<([u8; 32], nat, Seq<u8>)>,
) -> Option<(nat, Seq<u8>)> {
    match entry {
        Some((held, depth, node_rlp)) if held == root => Some((depth, node_rlp)),
        _ => match resolved(nodes, root) {
            Ok(node_rlp) => Some((0, node_rlp)),
            Err(_) => None,
        },
    }
}

/// What a state remembers of its reads.
#[verifier::ext_equal]
pub struct Remembered {
    /// The accounts reads have found, by hashed address.
    pub accounts: Map<[u8; 32], TrieAccount>,
    /// Where a read stands once it has taken the nibbles of its first byte, by that byte.
    pub prefixes: Seq<Option<([u8; 32], nat, Seq<u8>)>>,
}

impl Remembered {
    /// What a state that has read nothing remembers.
    pub open spec fn nothing() -> Self {
        Remembered { accounts: Map::empty(), prefixes: Seq::new(256, |prefix: int| None) }
    }

    /// What is remembered once `key` has been read in the trie rooted at `root`: the deepest node the
    /// read reached within its prefix. A trie that holds nothing, and one whose root the witness
    /// lacks, leave everything as it was.
    pub open spec fn after_read(
        self,
        nodes: Map<[u8; 32], Seq<u8>>,
        root: [u8; 32],
        key: [u8; 32],
    ) -> Self {
        let prefix = key@[0] as int;
        if root == empty_root() {
            self
        } else {
            match read_start(nodes, root, self.prefixes[prefix]) {
                None => self,
                Some((depth, node_rlp)) => {
                    let (taken, reached) = deepest_held(nodes, node_rlp, unpacked(key@), depth);
                    Remembered {
                        prefixes: self.prefixes.update(prefix, Some((root, taken, reached))),
                        ..self
                    }
                },
            }
        }
    }

    /// What is remembered once the account at a hashed address has been read: nothing more where it
    /// already is, and otherwise what the read leaves and the account, where the trie holds it.
    pub open spec fn after_account(
        self,
        nodes: Map<[u8; 32], Seq<u8>>,
        root: [u8; 32],
        hashed_address: [u8; 32],
    ) -> Self {
        if self.accounts.contains_key(hashed_address) {
            self
        } else {
            let read = self.after_read(nodes, root, hashed_address);
            match account_read(nodes, root, hashed_address) {
                Ok(Some(account)) => Remembered {
                    accounts: read.accounts.insert(hashed_address, account),
                    ..read
                },
                _ => read,
            }
        }
    }

    /// What is remembered once a slot of the account at a hashed address has been read, which reads
    /// the account and, where there is one, its storage trie.
    pub open spec fn after_slot(
        self,
        nodes: Map<[u8; 32], Seq<u8>>,
        root: [u8; 32],
        hashed_address: [u8; 32],
        hashed_slot: [u8; 32],
    ) -> Self {
        let read = self.after_account(nodes, root, hashed_address);
        match account_read(nodes, root, hashed_address) {
            Ok(Some(account)) => read.after_read(nodes, account.storage_root, hashed_slot),
            _ => read,
        }
    }

    /// What is remembered once the first `count` accounts a block touched have been gone through,
    /// which reads each that is left behind.
    pub open spec fn after_accounts(
        self,
        nodes: Map<[u8; 32], Seq<u8>>,
        root: [u8; 32],
        state: HashedPostStateSorted,
        count: nat,
    ) -> Self
        decreases count,
    {
        if count == 0 {
            self
        } else {
            let before = self.after_accounts(nodes, root, state, (count - 1) as nat);
            let (hashed_address, account) = state.accounts@[count - 1];
            match account {
                None => before,
                Some(_) => before.after_account(nodes, root, hashed_address),
            }
        }
    }
}

/// How many of the accounts a block touched are gone through, from `at` on: up to and with the first
/// whose storage root cannot be recomputed, and all of them where there is none.
pub open spec fn gone_through(
    nodes: Map<[u8; 32], Seq<u8>>,
    root: [u8; 32],
    state: HashedPostStateSorted,
    at: nat,
) -> nat
    decreases state.accounts@.len() - at,
{
    if at >= state.accounts@.len() {
        state.accounts@.len()
    } else if account_after(nodes, root, state, at as int) is Err {
        at + 1
    } else {
        gone_through(nodes, root, state, at + 1)
    }
}

/// A read goes on from an extension whose path the key has next to its child, past those nibbles, and
/// from a branch to the child under the next nibble, past that one, where the child is to be had, and
/// from nothing else.
pub proof fn law_read_goes_on(
    nodes: Map<[u8; 32], Seq<u8>>,
    node_rlp: Seq<u8>,
    key: Seq<u8>,
    depth: nat,
)
    requires
        depth <= key.len(),
        node_rlp != seq![0x80u8],
    ensures
        match node_of(node_rlp) {
            Ok(NodeView::Extension { path, child }) => {
                let held = path_of(path);
                let next = 0 < held.len() && depth + held.len() <= key.len() && forall|i: int|
                    0 <= i < held.len() ==> #[trigger] held[i] == key[depth + i];
                next_reached(nodes, node_rlp, key, depth) == if next && child_of(nodes, child) is Ok {
                    Some((depth + held.len(), child_of(nodes, child)->Ok_0))
                } else {
                    None
                }
            },
            Ok(NodeView::Branch { payload }) => next_reached(nodes, node_rlp, key, depth)
                == if depth < key.len() && branch_child(nodes, payload, key[depth as int]) is Ok {
                Some((depth + 1, branch_child(nodes, payload, key[depth as int])->Ok_0))
            } else {
                None
            },
            _ => next_reached(nodes, node_rlp, key, depth) is None,
        },
{
    let left = key.skip(depth as int);
    if let Ok(NodeView::Extension { path, child }) = node_of(node_rlp) {
        let held = path_of(path);
        if held.len() <= left.len() {
            let front = left.subrange(0, held.len() as int);
            assert forall|i: int| 0 <= i < held.len() implies #[trigger] front[i] == key[depth
                + i] by {}
            if forall|i: int| 0 <= i < held.len() ==> #[trigger] held[i] == key[depth + i] {
                assert(front =~= held);
            }
            if front == held {
                assert forall|i: int| 0 <= i < held.len() implies #[trigger] held[i] == key[depth
                    + i] by {
                    assert(front[i] == held[i]);
                }
            }
        }
    }
}

/// What is held for a prefix is a node on the way of the read, no deeper than the prefix, which the
/// rest of the key is read from to the same end, and the read goes on from it to none that is no
/// deeper than the prefix either.
pub proof fn law_deepest_held(
    nodes: Map<[u8; 32], Seq<u8>>,
    node_rlp: Seq<u8>,
    key: Seq<u8>,
    depth: nat,
)
    requires
        depth <= 2,
        key.len() == 64,
    ensures
        ({
            let (taken, reached) = deepest_held(nodes, node_rlp, key, depth);
            &&& depth <= taken <= 2
            &&& walked(nodes, reached, key.skip(taken as int)) == walked(
                nodes,
                node_rlp,
                key.skip(depth as int),
            )
            &&& next_reached(nodes, reached, key, taken) matches Some((further, _)) ==> further > 2
        }),
    decreases 2 - depth,
{
    if let Some((further, child_rlp)) = next_reached(nodes, node_rlp, key, depth) {
        if further <= 2 {
            law_deepest_held(nodes, child_rlp, key, further);
            assert(key.skip(depth as int).skip(further - depth) =~= key.skip(further as int));
        }
    }
}

/// What a state remembers: nothing to begin with, of a read where it stood at the end of its prefix
/// and nothing else, and of an account that was found that account too. An account that is already
/// remembered is not read again, and a trie that holds nothing or whose root is not there leaves
/// nothing behind.
pub proof fn law_reads_are_remembered(
    before: Remembered,
    nodes: Map<[u8; 32], Seq<u8>>,
    root: [u8; 32],
    key: [u8; 32],
)
    requires
        before.prefixes.len() == 256,
    ensures
        forall|hashed_address: [u8; 32]|
            !(#[trigger] Remembered::nothing().accounts.contains_key(hashed_address)),
        Remembered::nothing().prefixes.len() == 256,
        forall|i: int| 0 <= i < 256 ==> #[trigger] Remembered::nothing().prefixes[i] is None,
        before.after_read(nodes, root, key).accounts == before.accounts,
        forall|i: int|
            0 <= i < 256 && i != key@[0] ==> #[trigger] before.after_read(
                nodes,
                root,
                key,
            ).prefixes[i] == before.prefixes[i],
        root == keccak(seq![0x80u8]) ==> before.after_read(nodes, root, key) == before,
        root != keccak(seq![0x80u8]) ==> match before.prefixes[key@[0] as int] {
            Some((held, depth, node_rlp)) if held == root => before.after_read(
                nodes,
                root,
                key,
            ).prefixes[key@[0] as int] == ({
                let (taken, reached) = deepest_held(nodes, node_rlp, unpacked(key@), depth);
                Some((root, taken, reached))
            }),
            _ => if nodes.contains_key(root) {
                before.after_read(nodes, root, key).prefixes[key@[0] as int] == ({
                    let (taken, reached) = deepest_held(nodes, nodes[root], unpacked(key@), 0);
                    Some((root, taken, reached))
                })
            } else {
                before.after_read(nodes, root, key) == before
            },
        },
        before.accounts.contains_key(key) ==> before.after_account(nodes, root, key) == before,
        !before.accounts.contains_key(key) ==> before.after_account(nodes, root, key).prefixes
            == before.after_read(nodes, root, key).prefixes,
        !before.accounts.contains_key(key) ==> before.after_account(nodes, root, key).accounts
            == match account_read(nodes, root, key) {
            Ok(Some(account)) => before.accounts.insert(key, account),
            _ => before.accounts,
        },
{
}

/// What is remembered of a slot is what is of its account and, where there is one, of a read of its
/// storage, and of a block what is of each account it left behind, one after another.
pub proof fn law_slots_and_blocks_are_remembered(
    before: Remembered,
    nodes: Map<[u8; 32], Seq<u8>>,
    root: [u8; 32],
    hashed_address: [u8; 32],
    hashed_slot: [u8; 32],
    state: HashedPostStateSorted,
    count: nat,
)
    requires
        count < state.accounts@.len(),
    ensures
        account_read(nodes, root, hashed_address) matches Ok(Some(account)) ==> before.after_slot(
            nodes,
            root,
            hashed_address,
            hashed_slot,
        ) == before.after_account(nodes, root, hashed_address).after_read(
            nodes,
            account.storage_root,
            hashed_slot,
        ),
        !(account_read(nodes, root, hashed_address) matches Ok(Some(_))) ==> before.after_slot(
            nodes,
            root,
            hashed_address,
            hashed_slot,
        ) == before.after_account(nodes, root, hashed_address),
        before.after_accounts(nodes, root, state, 0) == before,
        state.accounts@[count as int].1 is None ==> before.after_accounts(
            nodes,
            root,
            state,
            count + 1,
        ) == before.after_accounts(nodes, root, state, count),
        state.accounts@[count as int].1 is Some ==> before.after_accounts(
            nodes,
            root,
            state,
            count + 1,
        ) == before.after_accounts(nodes, root, state, count).after_account(
            nodes,
            root,
            state.accounts@[count as int].0,
        ),
{
}

/// A block goes through the accounts it touched up to and with the first whose storage root cannot be
/// recomputed, and through all of them where there is none.
#[verifier::spinoff_prover]
pub proof fn law_gone_through(
    nodes: Map<[u8; 32], Seq<u8>>,
    root: [u8; 32],
    state: HashedPostStateSorted,
    at: nat,
)
    requires
        at <= state.accounts@.len(),
    ensures
        at <= gone_through(nodes, root, state, at) <= state.accounts@.len(),
        forall|i: int|
            at <= i < gone_through(nodes, root, state, at) - 1 ==> #[trigger] account_after(
                nodes,
                root,
                state,
                i,
            ) is Ok,
        gone_through(nodes, root, state, at) < state.accounts@.len() ==> account_after(
            nodes,
            root,
            state,
            gone_through(nodes, root, state, at) - 1,
        ) is Err,
    decreases state.accounts@.len() - at,
{
    let count = gone_through(nodes, root, state, at);
    if at < state.accounts@.len() && account_after(nodes, root, state, at as int) is Ok {
        law_gone_through(nodes, root, state, at + 1);
        assert forall|i: int| at <= i < count - 1 implies #[trigger] account_after(
            nodes,
            root,
            state,
            i,
        ) is Ok by {
            if i > at {
                assert(at + 1 <= i < gone_through(nodes, root, state, at + 1) - 1);
            }
        }
    }
}

} // verus!
