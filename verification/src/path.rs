//! [`PathState`], the Ethereum world state over the witness bytes, walked rather than built.
//!
//! Nothing is materialized. The witness is indexed once by the Keccak hash each node is referenced
//! through, reads walk that index from the root decoding nodes as they go, and recomputing the root
//! descends once over the whole change set.
//!
//! Looking a node up by the hash its parent commits to is what verifies it, so a node is trusted
//! precisely when a walk reaches it, and a reference the witness has no node for is a witness too
//! incomplete to validate against. That also bounds the shapes a walk has to handle to the ones the
//! chain holds, and every one of those bounds is checked rather than assumed. Every malformed
//! encoding is an error rather than a panic, so a bad witness can cost a block its validation but
//! never its correctness.

use alloy_primitives::map::B256Map;
use vstd::prelude::*;

use crate::account::{
    account_of_rlp, account_rlp, decode_account, decode_word, lemma_account_width, lemma_word_width,
    word_of, word_rlp, TrieAccount,
};
use crate::changes::{
    agree, change_map, in_order, key_from, lemma_change_at, lemma_change_count, lemma_change_of,
    lemma_unpacked, names_values, precedes, Change,
};
use crate::descent::{branch_child, child_of, read, resolved, updated, walked};
use crate::error::{PathError, StateRootError};
use crate::floor::floor_of;
use crate::index::{
    account_entries, account_of, code_entries, codes_view, insert_account, insert_code, insert_node,
    into_codes, no_accounts, no_codes, no_nodes, node_at, node_entries, with_code,
};
use crate::keccak::{
    empty_code_hash, empty_root, empty_root_hash, keccak, keccak256, lemma_digest_of, same_digest,
};
use crate::nibbles::{follows, nibble_at, path_from, path_of, unpacked, MAX_NIBBLES};
use crate::node::{
    decode_node, empty_node, empty_rlp, is_empty_node, lemma_node_of, node_of, Node, NodeView,
    DIGEST_LEN, MAX_LEAF_VALUE,
};
use crate::reads::{deepest_held, gone_through, prefix_view, read_start, Remembered};
use crate::rlp::{decode_header, header_of};
use crate::room::{leaves_room, lemma_leaves_room};
use crate::stack::{
    descent_bytes, law_stack_len_is_derived, leaked, lemma_room_saves, zeros, DynStack, STACK_LEN,
};
use crate::state::{
    is_entry_of, recorded, slot_changes, zero_word, HashedPostStateSorted, HashedStorageSorted,
};
use crate::trie::{no_keys, starts_with};
use crate::update::{values_fit, values_narrow, Descent};
use crate::values::ChangedValues;

verus! {

/// The trie a read was walking, the nibbles of its key it had taken and the node it had reached.
pub type PrefixNode = ([u8; 32], usize, &'static [u8]);

/// Nibbles of a key a prefix covers, which are the ones its first byte holds.
pub const PREFIX_NIBBLES: usize = 2;

/// The Ethereum world state over the witness bytes, walked rather than built.
pub struct PathState {
    /// Trie nodes by the Keccak hash they are referenced through, which the witness supplies and
    /// nothing the descent builds ever joins.
    pub nodes: B256Map<&'static [u8]>,
    /// Root every read is anchored at, which the parent block header commits to.
    pub root: [u8; 32],
    /// Accounts the state trie holds and a read has already walked it for, as they stood before
    /// execution. Execution reads an account and then its storage, which would otherwise walk the
    /// state trie twice for every account whose storage a block touches. An account the trie has
    /// none of is left out, since a block reading a great many of those would fill this with
    /// entries answering only the reads that never come.
    pub accounts: B256Map<TrieAccount>,
    /// Where a read stands once it has taken the first nibbles of its key, held per trie and
    /// prefix.
    ///
    /// Every read of one trie crosses the same nodes near its root, so a block reading a thousand
    /// accounts, or a thousand slots of one account, would otherwise split those nodes and look
    /// their children up by digest a thousand times over. Deeper down a witness holds far more
    /// nodes than any block reads twice, so a read stops recording there. Each entry carries
    /// the root it was taken from, so the tries read alongside one another share the room
    /// rather than evicting one another.
    pub prefix_nodes: [Option<PrefixNode>; 256],
}

/// What a read of `key` in the trie rooted at `root` comes to, which in a trie that holds nothing
/// is nothing.
pub open spec fn trie_read(nodes: Map<[u8; 32], Seq<u8>>, root: [u8; 32], key: Seq<u8>) -> Result<
    Option<Seq<u8>>,
    PathError,
> {
    if root == empty_root() {
        Ok(None)
    } else {
        read(nodes, root, key)
    }
}

/// Whether a read found what it was to find.
pub open spec fn finds(
    found: Result<Option<&[u8]>, PathError>,
    expected: Result<Option<Seq<u8>>, PathError>,
) -> bool {
    match (found, expected) {
        (Ok(Some(value)), Ok(Some(bytes))) => value@ == bytes,
        (Ok(None), Ok(None)) => true,
        (Err(error), Err(refusal)) => error == refusal,
        _ => false,
    }
}

/// The root of the trie `root` commits to once `changes` are applied to it.
pub open spec fn updated_root(
    nodes: Map<[u8; 32], Seq<u8>>,
    root: [u8; 32],
    changes: Map<Seq<u8>, Option<Seq<u8>>>,
) -> Result<[u8; 32], PathError> {
    if no_keys(changes) {
        Ok(root)
    } else {
        let start = if root == empty_root() {
            Ok(empty_rlp())
        } else {
            resolved(nodes, root)
        };
        match start {
            Err(error) => Err(error),
            Ok(node_rlp) => match updated(nodes, node_rlp, changes, MAX_NIBBLES as nat) {
                Err(error) => Err(error),
                Ok(root_rlp) => Ok(keccak(root_rlp)),
            },
        }
    }
}

/// Bytes an update from `root` holds at once at most: fewer where every extension the trie leads to
/// leaves a nibble below it.
pub open spec fn root_ceiling(nodes: Map<[u8; 32], Seq<u8>>, root: [u8; 32]) -> int {
    descent_bytes(
        0,
        root != empty_root() && nodes.contains_key(root) ==> leaves_room(
            nodes,
            nodes[root],
            MAX_NIBBLES as nat,
        ),
    )
}

/// Bytes of scratch an update of the trie `root` commits to holds at once at least.
pub open spec fn root_floor(
    nodes: Map<[u8; 32], Seq<u8>>,
    root: [u8; 32],
    changes: Map<Seq<u8>, Option<Seq<u8>>>,
) -> nat {
    if no_keys(changes) || root == empty_root() {
        0
    } else {
        match resolved(nodes, root) {
            Ok(node_rlp) => floor_of(nodes, node_rlp, changes, MAX_NIBBLES as nat),
            Err(_) => 0,
        }
    }
}

/// The account the state trie rooted at `root` records under a hashed address.
pub open spec fn account_read(
    nodes: Map<[u8; 32], Seq<u8>>,
    root: [u8; 32],
    hashed_address: [u8; 32],
) -> Result<Option<TrieAccount>, PathError> {
    match trie_read(nodes, root, unpacked(hashed_address@)) {
        Err(error) => Err(error),
        Ok(None) => Ok(None),
        Ok(Some(value)) => match account_of_rlp(value) {
            Err(error) => Err(PathError::Rlp(error)),
            Ok(account) => Ok(Some(account)),
        },
    }
}

/// The word an account's storage holds at a slot, which is zero wherever nothing is recorded.
pub open spec fn storage_read(
    nodes: Map<[u8; 32], Seq<u8>>,
    root: [u8; 32],
    hashed_address: [u8; 32],
    hashed_slot: [u8; 32],
) -> Result<[u8; 32], PathError> {
    match account_read(nodes, root, hashed_address) {
        Err(error) => Err(error),
        Ok(None) => Ok(zero_word()),
        Ok(Some(account)) => match trie_read(
            nodes,
            account.storage_root,
            unpacked(hashed_slot@),
        ) {
            Err(error) => Err(error),
            Ok(None) => Ok(zero_word()),
            Ok(Some(value)) => match word_of(value) {
                Err(error) => Err(PathError::Rlp(error)),
                Ok(word) => Ok(word),
            },
        },
    }
}

/// The storage root an account ends the block with, applying `storage` to the trie it held before
/// execution, or to none where that was wiped.
pub open spec fn storage_root_after(
    nodes: Map<[u8; 32], Seq<u8>>,
    root: [u8; 32],
    hashed_address: [u8; 32],
    storage: Option<HashedStorageSorted>,
) -> Result<[u8; 32], PathError> {
    match account_read(nodes, root, hashed_address) {
        Err(error) => Err(error),
        Ok(account) => {
            let before = match account {
                Some(account) => account.storage_root,
                None => empty_root(),
            };
            match storage {
                None => Ok(before),
                Some(storage) => updated_root(
                    nodes,
                    if storage.wiped {
                        empty_root()
                    } else {
                        before
                    },
                    slot_changes(storage.storage_slots@),
                ),
            }
        },
    }
}

/// What the state trie is to record of the account at `i`, its storage root recomputed.
pub open spec fn account_after(
    nodes: Map<[u8; 32], Seq<u8>>,
    root: [u8; 32],
    state: HashedPostStateSorted,
    i: int,
) -> Result<Option<Seq<u8>>, PathError> {
    let (hashed_address, account) = state.accounts@[i];
    match account {
        None => Ok(None),
        Some(account) => match storage_root_after(
            nodes,
            root,
            hashed_address,
            state.storage_under(hashed_address),
        ) {
            Err(error) => Err(error),
            Ok(storage_root) => Ok(Some(account_rlp(recorded(account, storage_root)))),
        },
    }
}

/// What the block does to the state trie, by nibbles of the hashed address.
pub open spec fn state_changes(
    nodes: Map<[u8; 32], Seq<u8>>,
    root: [u8; 32],
    state: HashedPostStateSorted,
) -> Map<Seq<u8>, Option<Seq<u8>>> {
    Map::new(
        |key: Seq<u8>| exists|i: int| is_entry_of(state.accounts@, key, i),
        |key: Seq<u8>|
            account_after(
                nodes,
                root,
                state,
                choose|i: int| is_entry_of(state.accounts@, key, i),
            )->Ok_0,
    )
}

/// The state root the block ends with: the state trie with every account it touched recorded anew,
/// each over its own recomputed storage root.
pub open spec fn state_root_after(
    nodes: Map<[u8; 32], Seq<u8>>,
    root: [u8; 32],
    state: HashedPostStateSorted,
) -> Result<[u8; 32], StateRootError> {
    if exists|i: int|
        0 <= i < state.accounts@.len() && #[trigger] account_after(nodes, root, state, i) is Err {
        Err(StateRootError::CalculationFailed)
    } else {
        match updated_root(nodes, root, state_changes(nodes, root, state)) {
            Err(_) => Err(StateRootError::CalculationFailed),
            Ok(root) => Ok(root),
        }
    }
}

/// The nodes of the first `count` of a witness by the digest each is referenced through.
pub open spec fn indexed(state: Seq<Vec<u8>>, count: nat) -> Map<[u8; 32], Seq<u8>>
    decreases count,
{
    if count == 0 {
        Map::empty()
    } else {
        indexed(state, (count - 1) as nat).insert(keccak(state[count - 1]@), state[count - 1]@)
    }
}

/// The bytecode of the first `count` of a witness by its hash, in order.
pub open spec fn hashed_codes(codes: Seq<Vec<u8>>, count: nat) -> Seq<([u8; 32], Seq<u8>)>
    decreases count,
{
    if count == 0 {
        Seq::empty()
    } else {
        with_code(
            hashed_codes(codes, (count - 1) as nat),
            keccak(codes[count - 1]@),
            codes[count - 1]@,
        )
    }
}

/// Whether every key whose first byte is `prefix` is read from `node_rlp` on once it has taken
/// `depth` nibbles.
pub open spec fn stands_for(
    nodes: Map<[u8; 32], Seq<u8>>,
    root: [u8; 32],
    prefix: int,
    depth: nat,
    node_rlp: Seq<u8>,
) -> bool {
    &&& depth <= PREFIX_NIBBLES
    &&& forall|key: [u8; 32]|
        key@[0] == prefix ==> #[trigger] read(nodes, root, unpacked(key@)) == walked(
            nodes,
            node_rlp,
            unpacked(key@).skip(depth as int),
        )
}

/// Whether every key that shares its first byte and its first `depth` nibbles with `key` is read
/// from `node_rlp` on.
spec fn reaches(
    nodes: Map<[u8; 32], Seq<u8>>,
    root: [u8; 32],
    key: [u8; 32],
    depth: nat,
    node_rlp: Seq<u8>,
) -> bool {
    forall|other: [u8; 32]|
        other@[0] == key@[0] && unpacked(other@).subrange(0, depth as int) == unpacked(
            key@,
        ).subrange(0, depth as int) ==> #[trigger] read(nodes, root, unpacked(other@)) == walked(
            nodes,
            node_rlp,
            unpacked(other@).skip(depth as int),
        )
}

/// Keys that share a byte share its two nibbles.
proof fn lemma_same_prefix(key: [u8; 32], other: [u8; 32], depth: nat)
    requires
        key@[0] == other@[0],
        depth <= 2,
    ensures
        unpacked(other@).subrange(0, depth as int) == unpacked(key@).subrange(0, depth as int),
{
    assert(unpacked(other@).subrange(0, depth as int) =~= unpacked(key@).subrange(0, depth as int));
}

/// A walk that takes `path` below a node is read from the node it comes to on.
proof fn lemma_reaches(
    nodes: Map<[u8; 32], Seq<u8>>,
    root: [u8; 32],
    key: [u8; 32],
    depth: nat,
    node_rlp: Seq<u8>,
    taken: nat,
    child_rlp: Seq<u8>,
)
    requires
        reaches(nodes, root, key, depth, node_rlp),
        depth + taken <= 64,
        node_rlp != empty_rlp(),
        match node_of(node_rlp) {
            Ok(NodeView::Extension { path, child }) => {
                &&& taken == path_of(path).len()
                &&& taken > 0
                &&& starts_with(unpacked(key@).skip(depth as int), path_of(path))
                &&& child_of(nodes, child) == Ok::<Seq<u8>, PathError>(child_rlp)
            },
            Ok(NodeView::Branch { payload }) => {
                &&& taken == 1
                &&& branch_child(nodes, payload, unpacked(key@)[depth as int]) == Ok::<
                    Seq<u8>,
                    PathError,
                >(child_rlp)
            },
            _ => false,
        },
    ensures
        reaches(nodes, root, key, depth + taken, child_rlp),
{
    let further = depth + taken;
    assert forall|other: [u8; 32]|
        other@[0] == key@[0] && unpacked(other@).subrange(0, further as int) == unpacked(
            key@,
        ).subrange(0, further as int) implies #[trigger] read(nodes, root, unpacked(other@))
        == walked(nodes, child_rlp, unpacked(other@).skip(further as int)) by {
        let (mine, theirs) = (unpacked(key@), unpacked(other@));
        assert(theirs.subrange(0, depth as int) =~= theirs.subrange(0, further as int).subrange(
            0,
            depth as int,
        ));
        assert(mine.subrange(0, depth as int) =~= mine.subrange(0, further as int).subrange(
            0,
            depth as int,
        ));
        let left = theirs.skip(depth as int);
        assert(left.skip(taken as int) =~= theirs.skip(further as int));
        assert(left.subrange(0, taken as int) =~= theirs.subrange(0, further as int).skip(
            depth as int,
        ));
        assert(mine.skip(depth as int).subrange(0, taken as int) =~= mine.subrange(
            0,
            further as int,
        ).skip(depth as int));
        assert(left[0] == left.subrange(0, taken as int)[0]);
        assert(mine[depth as int] == mine.skip(depth as int).subrange(0, taken as int)[0]);
    }
}

impl PathState {
    /// What the state has recorded of its reads is what they came to.
    pub open spec fn well_formed(&self) -> bool {
        &&& forall|prefix: int|
            0 <= prefix < 256 ==> (#[trigger] self.prefix_nodes@[prefix] matches Some(
                (root, depth, node_rlp),
            ) ==> stands_for(self.witness(), root, prefix, depth as nat, node_rlp@))
        &&& forall|hashed_address: [u8; 32]| #[trigger]
            account_entries(self.accounts).contains_key(hashed_address) ==> account_read(
                self.witness(),
                self.root,
                hashed_address,
            ) == Ok::<Option<TrieAccount>, PathError>(
                Some(account_entries(self.accounts)[hashed_address]),
            )
    }

    /// What the state remembers of its reads.
    pub open spec fn remembered(&self) -> Remembered {
        Remembered {
            accounts: account_entries(self.accounts),
            prefixes: Seq::new(256, |prefix: int| prefix_view(self.prefix_nodes@[prefix])),
        }
    }

    /// The nodes the witness supplies, by digest.
    pub open spec fn witness(&self) -> Map<[u8; 32], Seq<u8>> {
        node_entries(self.nodes)
    }

    /// The node `digest` commits to. A digest the witness has no node for means the block read
    /// below a subtree the witness never revealed.
    pub fn resolve(&self, digest: [u8; 32]) -> (node_rlp: Result<&'static [u8], PathError>)
        ensures
            match resolved(self.witness(), digest) {
                Ok(bytes) => node_rlp is Ok && node_rlp->Ok_0@ == bytes,
                Err(error) => node_rlp == Err::<&'static [u8], PathError>(error),
            },
    {
        match node_at(&self.nodes, digest) {
            Some(node_rlp) => Ok(node_rlp),
            None => Err(PathError::NodeNotResolved(digest)),
        }
    }

    /// The node a parent references through `item`, or the empty node when the slot is absent.
    ///
    /// A child is an empty slot or a digest everywhere but the shortest of nodes, and its first
    /// byte tells which, so resolving one reads a byte rather than decoding a header.
    pub fn resolve_child<'s>(&self, item: &'s [u8]) -> (node_rlp: Result<&'s [u8], PathError>)
        ensures
            match child_of(self.witness(), item@) {
                Ok(bytes) => node_rlp is Ok && node_rlp->Ok_0@ == bytes,
                Err(error) => node_rlp == Err::<&'s [u8], PathError>(error),
            },
    {
        proof {
            reveal(child_of);
        }
        let (list, payload_length, rest) = match decode_header(item) {
            Ok(header) => header,
            Err(error) => return Err(PathError::Rlp(error)),
        };
        if list {
            return Ok(item);
        }
        if payload_length == 0 {
            return Ok(empty_node());
        }
        if payload_length == DIGEST_LEN {
            let mut digest: [u8; 32] = [0; 32];
            let mut at: usize = 0;
            while at < 32
                invariant
                    at <= 32,
                    rest@.len() >= 32,
                    forall|i: int| 0 <= i < at ==> digest@[i] == rest@[i],
                decreases 32 - at,
            {
                digest[at] = rest[at];
                at = at + 1;
            }
            proof {
                let skipped = header_of(item@)->Ok_0.skipped as int;
                assert(item@.subrange(skipped, skipped + DIGEST_LEN) =~= digest@);
                lemma_digest_of(digest);
            }
            return match self.resolve(digest) {
                Ok(node_rlp) => Ok(node_rlp),
                Err(error) => Err(error),
            };
        }
        Err(PathError::Rlp(alloy_rlp::Error::UnexpectedLength))
    }

    /// Walks the trie rooted at `root` for `key` and returns the value it holds, or `None` when the
    /// walk proves the key absent.
    pub fn get(&mut self, root: [u8; 32], key: &[u8; 32]) -> (found: Result<
        Option<&'static [u8]>,
        PathError,
    >)
        requires
            old(self).well_formed(),
        ensures
            finds(found, trie_read(old(self).witness(), root, unpacked(key@))),
            found matches Ok(Some(value)) ==> trie_read(old(self).witness(), root, unpacked(key@))
                == Ok::<Option<Seq<u8>>, PathError>(Some(value@)),
            found matches Ok(None) ==> trie_read(old(self).witness(), root, unpacked(key@)) == Ok::<
                Option<Seq<u8>>,
                PathError,
            >(None),
            found matches Err(error) ==> trie_read(old(self).witness(), root, unpacked(key@)) == Err::<
                Option<Seq<u8>>,
                PathError,
            >(error),
            final(self).well_formed(),
            final(self).nodes == old(self).nodes,
            final(self).root == old(self).root,
            final(self).accounts == old(self).accounts,
            final(self).remembered() == old(self).remembered().after_read(
                old(self).witness(),
                root,
                *key,
            ),
    {
        if same_digest(&root, &empty_root_hash()) {
            return Ok(None);
        }
        let ghost nodes = self.witness();
        let ghost before = *self;
        // The key stays packed, since a node's path is compared against the bytes it already sits
        // in and a walk of a level or two would never look at most of the nibbles in it.
        let prefix: usize = key[0] as usize;
        let mut depth: usize = 0;
        let mut node_rlp: &'static [u8] = empty_node();
        let mut recorded = false;
        if let Some((held, at, reached)) = self.prefix_nodes[prefix] {
            if same_digest(&held, &root) {
                recorded = true;
                depth = at;
                node_rlp = reached;
                proof {
                    assert(self.prefix_nodes@[prefix as int] is Some);
                    assert(stands_for(nodes, root, prefix as int, depth as nat, node_rlp@));
                }
            }
        }
        if !recorded {
            node_rlp = match self.resolve(root) {
                Ok(node_rlp) => node_rlp,
                Err(error) => return Err(error),
            };
            assert forall|other: [u8; 32]| true implies #[trigger] read(
                nodes,
                root,
                unpacked(other@),
            ) == walked(nodes, node_rlp@, unpacked(other@).skip(0)) by {
                assert(unpacked(other@).skip(0) =~= unpacked(other@));
            }
        }
        let ghost held = deepest_held(nodes, node_rlp@, unpacked(key@), depth as nat);
        proof {
            lemma_unpacked(key@);
        }
        loop
            invariant
                depth <= 64,
                read_start(nodes, root, prefix_view(before.prefix_nodes@[prefix as int])) matches Some(
                    (start, start_rlp),
                ) && held == deepest_held(nodes, start_rlp, unpacked(key@), start),
                depth <= PREFIX_NIBBLES ==> held == deepest_held(
                    nodes,
                    node_rlp@,
                    unpacked(key@),
                    depth as nat,
                ),
                depth > PREFIX_NIBBLES ==> (self.prefix_nodes@[prefix as int] matches Some(
                    (entry_root, taken, reached),
                ) && entry_root == root && held == (taken as nat, reached@)),
                self.prefix_nodes@.len() == 256,
                forall|other: int|
                    0 <= other < 256 && other != prefix ==> #[trigger] self.prefix_nodes@[other]
                        == before.prefix_nodes@[other],
                root != empty_root(),
                prefix == key@[0],
                unpacked(key@).len() == 64,
                reaches(nodes, root, *key, depth as nat, node_rlp@),
                nodes == self.witness(),
                before == *old(self),
                self.well_formed(),
                self.nodes == before.nodes,
                self.root == before.root,
                self.accounts == before.accounts,
            decreases 64 - depth,
        {
            // A read stops recording where it leaves the nibbles an entry is held per, so what
            // stands is the deepest node every key sharing them reaches.
            if depth <= PREFIX_NIBBLES {
                proof {
                    assert forall|other: [u8; 32]| other@[0] == prefix implies #[trigger] read(
                        nodes,
                        root,
                        unpacked(other@),
                    ) == walked(nodes, node_rlp@, unpacked(other@).skip(depth as int)) by {
                        lemma_same_prefix(*key, other, depth as nat);
                    }
                }
                self.prefix_nodes[prefix] = Some((root, depth, node_rlp));
            }
            assert(read(nodes, root, unpacked(key@)) == walked(
                nodes,
                node_rlp@,
                unpacked(key@).skip(depth as int),
            ));
            // A slot the parent left empty ends the walk, since the key is under it or nowhere.
            if is_empty_node(node_rlp) {
                return Ok(None);
            }
            proof {
                lemma_node_of(node_rlp@);
            }
            match decode_node(node_rlp) {
                Err(error) => return Err(error),
                Ok(Node::Leaf { path, value }) => {
                    let ghost left = unpacked(key@).skip(depth as int);
                    proof {
                        lemma_follows_key(*key, depth as nat, path_of(path@));
                        assert(left.subrange(0, left.len() as int) =~= left);
                    }
                    // A leaf ends exactly where a key does, so one reaching any other depth holds
                    // the key of no trie this walks.
                    return match path_from(key, depth, path) {
                        Some(taken) => if depth + taken == MAX_NIBBLES {
                            Ok(Some(value))
                        } else {
                            Ok(None)
                        },
                        None => Ok(None),
                    };
                },
                Ok(Node::Extension { path, child }) => {
                    proof {
                        lemma_follows_key(*key, depth as nat, path_of(path@));
                    }
                    let taken: usize = match path_from(key, depth, path) {
                        Some(taken) => taken,
                        None => return Ok(None),
                    };
                    let child_rlp: &'static [u8] = match self.resolve_child(child) {
                        Ok(child_rlp) => child_rlp,
                        Err(error) => return Err(error),
                    };
                    proof {
                        lemma_reaches(
                            nodes,
                            root,
                            *key,
                            depth as nat,
                            node_rlp@,
                            taken as nat,
                            child_rlp@,
                        );
                    }
                    node_rlp = child_rlp;
                    depth = depth + taken;
                },
                // Only a branch's value slot answers a key that has run out, and it stays empty
                // because every key is a hash of one length.
                Ok(Node::Branch(branch)) => {
                    if depth == MAX_NIBBLES {
                        return Err(PathError::ValueInBranch);
                    }
                    let item: &'static [u8] = match branch.child(nibble_at(key, depth)) {
                        Ok(item) => item,
                        Err(error) => return Err(error),
                    };
                    let child_rlp: &'static [u8] = match self.resolve_child(item) {
                        Ok(child_rlp) => child_rlp,
                        Err(error) => return Err(error),
                    };
                    proof {
                        lemma_reaches(
                            nodes,
                            root,
                            *key,
                            depth as nat,
                            node_rlp@,
                            1,
                            child_rlp@,
                        );
                    }
                    node_rlp = child_rlp;
                    depth = depth + 1;
                },
            }
        }
    }

    /// Indexes the witness by the Keccak hash each node is referenced through, and its bytecode by
    /// its own.
    ///
    /// Nothing is resolved here, since a walk verifies the nodes it reaches by the hashes their
    /// parents commit to, so a node the block never reads is a node it never has to trust.
    pub fn new(state: Vec<Vec<u8>>, codes: Vec<Vec<u8>>, pre_state_root: [u8; 32]) -> (made: (
        Self,
        Vec<([u8; 32], Vec<u8>)>,
    ))
        ensures
            made.0.well_formed(),
            made.0.witness() == indexed(state@, state@.len()),
            made.0.root == pre_state_root,
            made.0.remembered() == Remembered::nothing(),
            codes_view(made.1@) == hashed_codes(codes@, codes@.len()),
    {
        let mut nodes = no_nodes();
        let ghost all = state@;
        assert(node_entries(nodes) =~= indexed(all, 0));
        for node in given: state
            invariant
                given.seq() == all,
                node_entries(nodes) == indexed(all, given.index() as nat),
        {
            let digest = keccak256(node.as_slice());
            let node_rlp: &'static [u8] = leaked(node);
            insert_node(&mut nodes, digest, node_rlp);
        }
        let mut bytecode = no_codes();
        let ghost every = codes@;
        assert(code_entries(bytecode) =~= hashed_codes(every, 0));
        for code in given: codes
            invariant
                given.seq() == every,
                code_entries(bytecode) == hashed_codes(every, given.index() as nat),
        {
            let digest = keccak256(code.as_slice());
            insert_code(&mut bytecode, digest, code);
        }
        let made = PathState {
            nodes,
            root: pre_state_root,
            accounts: no_accounts(),
            prefix_nodes: [None; 256],
        };
        (made, into_codes(bytecode))
    }

    /// The account the state trie records under `hashed_address`, walking the trie for it only the
    /// first time it is asked for and every time for an account the trie holds none of.
    ///
    /// Recomputing the state root reads each account before writing it back, so the values held
    /// here stay the ones the trie was read with.
    pub fn account_at(&mut self, hashed_address: [u8; 32]) -> (account: Result<
        Option<TrieAccount>,
        PathError,
    >)
        requires
            old(self).well_formed(),
        ensures
            account == account_read(old(self).witness(), old(self).root, hashed_address),
            final(self).remembered() == old(self).remembered().after_account(
                old(self).witness(),
                old(self).root,
                hashed_address,
            ),
            final(self).well_formed(),
            final(self).nodes == old(self).nodes,
            final(self).root == old(self).root,
    {
        if let Some(account) = account_of(&self.accounts, hashed_address) {
            return Ok(Some(account));
        }
        let value = match self.get(self.root, &hashed_address) {
            Ok(Some(value)) => value,
            Ok(None) => return Ok(None),
            Err(error) => return Err(error),
        };
        let account = match decode_account(value) {
            Ok(account) => account,
            Err(error) => return Err(PathError::Rlp(error)),
        };
        insert_account(&mut self.accounts, hashed_address, account);
        Ok(Some(account))
    }

    /// The account the state records at an address.
    pub fn account(&mut self, address: &[u8; 20]) -> (account: Result<
        Option<TrieAccount>,
        PathError,
    >)
        requires
            old(self).well_formed(),
        ensures
            account == account_read(old(self).witness(), old(self).root, keccak(address@)),
            final(self).remembered() == old(self).remembered().after_account(
                old(self).witness(),
                old(self).root,
                keccak(address@),
            ),
            final(self).well_formed(),
            final(self).nodes == old(self).nodes,
            final(self).root == old(self).root,
    {
        self.account_at(keccak256(address.as_slice()))
    }

    /// The word the storage of the account at an address holds at a slot.
    pub fn storage(&mut self, address: &[u8; 20], slot: &[u8; 32]) -> (word: Result<
        [u8; 32],
        PathError,
    >)
        requires
            old(self).well_formed(),
        ensures
            word == storage_read(
                old(self).witness(),
                old(self).root,
                keccak(address@),
                keccak(slot@),
            ),
            final(self).remembered() == old(self).remembered().after_slot(
                old(self).witness(),
                old(self).root,
                keccak(address@),
                keccak(slot@),
            ),
            final(self).well_formed(),
            final(self).nodes == old(self).nodes,
            final(self).root == old(self).root,
    {
        let zero: [u8; 32] = [0; 32];
        proof {
            assert(zeros(32) + Seq::<u8>::empty() =~= zero@);
            lemma_digest_of(zero);
        }
        let account = match self.account_at(keccak256(address.as_slice())) {
            Ok(Some(account)) => account,
            Ok(None) => return Ok(zero),
            Err(error) => return Err(error),
        };
        // An account holding no storage answers every slot with zero, so the slot is hashed only
        // where there is a trie to look it up in. A block reading cold slots of accounts that hold
        // none would otherwise pay a hash for every one of them.
        if same_digest(&account.storage_root, &empty_root_hash()) {
            return Ok(zero);
        }
        match self.get(account.storage_root, &keccak256(slot.as_slice())) {
            Ok(Some(value)) => match decode_word(value) {
                Ok(word) => Ok(word),
                Err(error) => Err(PathError::Rlp(error)),
            },
            Ok(None) => Ok(zero),
            Err(error) => Err(error),
        }
    }

    /// The storage root an account ends the block with, applying `storage` to the trie it held
    /// before execution.
    pub fn storage_root(
        &mut self,
        hashed_address: [u8; 32],
        storage: Option<&HashedStorageSorted>,
        scratch: &mut [u8],
        peak: &mut usize,
    ) -> (storage_root: Result<[u8; 32], PathError>)
        requires
            old(self).well_formed(),
            storage matches Some(written) ==> written.well_formed(),
        ensures
            storage_root == storage_root_after(
                old(self).witness(),
                old(self).root,
                hashed_address,
                match storage {
                    Some(written) => Some(*written),
                    None => None,
                },
            ),
            final(self).remembered() == old(self).remembered().after_account(
                old(self).witness(),
                old(self).root,
                hashed_address,
            ),
            final(scratch)@.len() == old(scratch)@.len(),
            final(self).well_formed(),
            final(self).nodes == old(self).nodes,
            final(self).root == old(self).root,
            old(scratch)@.len() == STACK_LEN ==> *final(peak) <= STACK_LEN || *final(peak) == *old(
                peak,
            ),
    {
        let root: [u8; 32] = match self.account_at(hashed_address) {
            Ok(Some(account)) => account.storage_root,
            Ok(None) => empty_root_hash(),
            Err(error) => return Err(error),
        };
        let storage = match storage {
            Some(storage) => storage,
            None => return Ok(root),
        };
        let slots = storage.storage_slots.as_slice();
        let zero: [u8; 32] = [0; 32];
        proof {
            assert(zeros(32) + Seq::<u8>::empty() =~= zero@);
            lemma_digest_of(zero);
        }
        let mut changes: Vec<Change> = Vec::with_capacity(slots.len());
        let mut at: usize = 0;
        while at < slots.len()
            invariant
                at <= slots@.len(),
                changes@.len() == at,
                zero == zero_word(),
                slots@.len() <= u32::MAX,
                writes_slots(changes@, slots@),
            decreases slots.len() - at,
        {
            let change: Option<u32> = if same_digest(&slots[at].1, &zero) {
                None
            } else {
                Some(at as u32)
            };
            changes.push((slots[at].0, change));
            at = at + 1;
        }
        proof {
            lemma_agree_at_root(changes@);
            assert forall|i: int, j: int| 0 <= i < j < changes@.len() implies precedes(
                (#[trigger] changes@[i]).0@,
                (#[trigger] changes@[j]).0@,
            ) by {
                assert(changes@[i].0 == slots@[i].0 && changes@[j].0 == slots@[j].0);
            }
            lemma_slot_changes(changes@, slots@, slots.rlps());
            assert forall|i: int| 0 <= i < slots.rlps().len() implies (#[trigger] slots.rlps()[i]).len()
                <= 33 by {
                lemma_word_width(slots@[i].1);
            }
        }
        // Wiping drops the account's storage, so what is left is only what execution wrote back.
        let root: [u8; 32] = if storage.wiped {
            empty_root_hash()
        } else {
            root
        };
        self.batch_update(root, slots, changes.as_slice(), scratch, peak)
    }

    /// The state root the block ends with, every account it touched recorded over the storage root
    /// recomputing it produced.
    ///
    /// Every trie recomputed here builds in one buffer, which a descent hands back whole because it
    /// returns a hash rather than a borrow. Lending it out rather than holding it in the state is
    /// what leaves no descent able to run inside another.
    #[verifier::spinoff_prover]
    pub fn calculate_state_root(&mut self, state: &HashedPostStateSorted) -> (root: Result<
        [u8; 32],
        StateRootError,
    >)
        requires
            old(self).well_formed(),
            state.well_formed(),
        ensures
            root == state_root_after(old(self).witness(), old(self).root, *state),
            final(self).remembered() == old(self).remembered().after_accounts(
                old(self).witness(),
                old(self).root,
                *state,
                gone_through(old(self).witness(), old(self).root, *state, 0),
            ),
            final(self).well_formed(),
            final(self).nodes == old(self).nodes,
            final(self).root == old(self).root,
    {
        let ghost nodes = self.witness();
        let ghost state_root = self.root;
        let ghost before = *self;
        let mut scratch: Vec<u8> = vec![0; STACK_LEN];
        let mut peak: usize = 0;

        // Every account whose storage changed also has its leaf rewritten, since the leaf commits
        // to the storage root, so one pass over the accounts covers both tries.
        let count: usize = state.accounts.len();
        let mut changes: Vec<Change> = Vec::with_capacity(count);
        let mut accounts: Vec<TrieAccount> = Vec::with_capacity(count);
        let mut at: usize = 0;
        while at < count
            invariant
                at <= count,
                count == state.accounts@.len(),
                count <= u32::MAX,
                changes@.len() == at,
                accounts@.len() <= at,
                state.well_formed(),
                before == *old(self),
                nodes == before.witness(),
                state_root == before.root,
                self.well_formed(),
                self.nodes == before.nodes,
                self.root == before.root,
                records_accounts(nodes, state_root, *state, changes@, accounts@),
                self.remembered() == before.remembered().after_accounts(
                    nodes,
                    state_root,
                    *state,
                    at as nat,
                ),
                gone_through(nodes, state_root, *state, 0) == gone_through(
                    nodes,
                    state_root,
                    *state,
                    at as nat,
                ),
            decreases count - at,
        {
            let hashed_address: [u8; 32] = state.accounts[at].0;
            match state.accounts[at].1 {
                None => {
                    changes.push((hashed_address, None));
                },
                Some(account) => {
                    let storage = state.storage_of(&hashed_address);
                    let storage_root: [u8; 32] = match self.storage_root(
                        hashed_address,
                        storage,
                        scratch.as_mut_slice(),
                        &mut peak,
                    ) {
                        Ok(storage_root) => storage_root,
                        Err(_) => {
                            assert(account_after(nodes, state_root, *state, at as int) is Err);
                            return Err(StateRootError::CalculationFailed);
                        },
                    };
                    changes.push((hashed_address, Some(accounts.len() as u32)));
                    accounts.push(
                        TrieAccount {
                            nonce: account.nonce,
                            balance: account.balance,
                            storage_root,
                            code_hash: match account.bytecode_hash {
                                Some(code_hash) => code_hash,
                                None => empty_code_hash(),
                            },
                        },
                    );
                },
            }
            at = at + 1;
        }
        let values = accounts.as_slice();
        proof {
            lemma_recorded_accounts(
                nodes,
                state_root,
                *state,
                changes@,
                accounts@,
                values.rlps(),
            );
        }
        match self.batch_update(
            self.root,
            values,
            changes.as_slice(),
            scratch.as_mut_slice(),
            &mut peak,
        ) {
            Ok(root) => Ok(root),
            Err(_) => Err(StateRootError::CalculationFailed),
        }
    }

    /// Applies `changes`, ordered by key, to the trie rooted at `root` and returns the new root.
    ///
    /// Ordered, distinct keys are what leave each branch's children a contiguous sub-slice, so
    /// descent covers the whole change set, no key reaches a node twice, and both the depth a
    /// descent runs to and the scratch it holds stay bounded by the trie.
    pub fn batch_update<V: ChangedValues + ?Sized>(
        &self,
        root: [u8; 32],
        values: &V,
        changes: &[Change],
        scratch: &mut [u8],
        peak: &mut usize,
    ) -> (updated_to: Result<[u8; 32], PathError>)
        requires
            in_order(changes@),
            names_values(changes@, values.rlps().len()),
            values_fit(values.rlps()),
        ensures
            updated_to == updated_root(
                self.witness(),
                root,
                change_map(changes@, values.rlps(), 0),
            ),
            final(scratch)@.len() == old(scratch)@.len(),
            root_ceiling(self.witness(), root) <= STACK_LEN,
            values_narrow(values.rlps()) && old(scratch)@.len() == STACK_LEN ==> *final(peak)
                <= root_ceiling(self.witness(), root) || *final(peak) == *old(peak),
            values_narrow(values.rlps()) && old(scratch)@.len() == STACK_LEN ==> *final(peak)
                >= *old(peak) && *final(peak) >= root_floor(
                self.witness(),
                root,
                change_map(changes@, values.rlps(), 0),
            ),
    {
        proof {
            lemma_agree_at_root(changes@);
            lemma_change_count(changes@, values.rlps(), 0);
            law_stack_len_is_derived();
            lemma_room_saves(0);
            lemma_leaves_room(self.witness(), empty_rlp(), 64);
        }
        if changes.len() == 0 {
            return Ok(root);
        }
        let node_rlp: &[u8] = if same_digest(&root, &empty_root_hash()) {
            empty_node()
        } else {
            match self.resolve(root) {
                Ok(node_rlp) => node_rlp,
                Err(error) => return Err(error),
            }
        };
        let mut stack = DynStack::new(scratch, peak);
        let descent = Descent { state: self, values };
        match descent.update(node_rlp, changes, 0, &mut stack) {
            Ok(root_rlp) => if is_empty_node(root_rlp) {
                Ok(empty_root_hash())
            } else {
                Ok(keccak256(root_rlp))
            },
            Err(error) => Err(error),
        }
    }
}

/// Whether the changes are the ones writing the slots makes, drawing on the words they are left at.
spec fn writes_slots(changes: Seq<Change>, slots: Seq<([u8; 32], [u8; 32])>) -> bool {
    &&& changes.len() <= slots.len()
    &&& forall|i: int|
        0 <= i < changes.len() ==> {
            &&& (#[trigger] changes[i]).0 == slots[i].0
            &&& changes[i].1 == if slots[i].1 == zero_word() {
                None::<u32>
            } else {
                Some(i as u32)
            }
        }
}

/// A change set drawn from slots does what writing them does.
proof fn lemma_slot_changes(changes: Seq<Change>, slots: Seq<([u8; 32], [u8; 32])>, rlps: Seq<Seq<u8>>)
    requires
        writes_slots(changes, slots),
        changes.len() == slots.len(),
        slots.len() <= u32::MAX,
        rlps.len() == slots.len(),
        forall|i: int| 0 <= i < slots.len() ==> #[trigger] rlps[i] == word_rlp(slots[i].1),
        in_order(changes),
        agree(changes, 0),
    ensures
        change_map(changes, rlps, 0) == slot_changes(slots),
{
    let (left, right) = (change_map(changes, rlps, 0), slot_changes(slots));
    assert forall|i: int| 0 <= i < changes.len() implies #[trigger] key_from(changes[i], 0)
        == unpacked(slots[i].0@) by {
        assert(key_from(changes[i], 0) =~= unpacked(slots[i].0@));
    }
    assert forall|key: Seq<u8>| left.contains_key(key) == #[trigger] right.contains_key(key) && (
    right.contains_key(key) ==> left[key] == right[key]) by {
        if left.contains_key(key) {
            let i = lemma_change_of(changes, rlps, 0, key);
            assert(is_entry_of(slots, key, i));
        }
        if right.contains_key(key) {
            let i = choose|i: int| is_entry_of(slots, key, i);
            assert(is_entry_of(slots, key, i));
            lemma_change_at(changes, rlps, 0, i);
            assert(changes[i].0 == slots[i].0);
        }
    }
    assert(left =~= right);
}

/// Whether the changes are the ones recording the accounts makes, drawing on `recorded_accounts`.
spec fn records_accounts(
    nodes: Map<[u8; 32], Seq<u8>>,
    root: [u8; 32],
    state: HashedPostStateSorted,
    changes: Seq<Change>,
    recorded_accounts: Seq<TrieAccount>,
) -> bool {
    &&& changes.len() <= state.accounts@.len()
    &&& forall|i: int|
        0 <= i < changes.len() ==> {
            &&& (#[trigger] changes[i]).0 == state.accounts@[i].0
            &&& match changes[i].1 {
                None => account_after(nodes, root, state, i) == Ok::<Option<Seq<u8>>, PathError>(
                    None,
                ),
                Some(index) => {
                    &&& index < recorded_accounts.len()
                    &&& account_after(nodes, root, state, i) == Ok::<Option<Seq<u8>>, PathError>(
                        Some(account_rlp(recorded_accounts[index as int])),
                    )
                },
            }
        }
}

/// A change set drawn from accounts does what recording them does.
proof fn lemma_state_changes(
    nodes: Map<[u8; 32], Seq<u8>>,
    root: [u8; 32],
    state: HashedPostStateSorted,
    changes: Seq<Change>,
    recorded_accounts: Seq<TrieAccount>,
    rlps: Seq<Seq<u8>>,
)
    requires
        records_accounts(nodes, root, state, changes, recorded_accounts),
        changes.len() == state.accounts@.len(),
        rlps.len() == recorded_accounts.len(),
        forall|i: int|
            0 <= i < recorded_accounts.len() ==> #[trigger] rlps[i] == account_rlp(
                recorded_accounts[i],
            ),
        in_order(changes),
        agree(changes, 0),
    ensures
        change_map(changes, rlps, 0) == state_changes(nodes, root, state),
{
    let (left, right) = (change_map(changes, rlps, 0), state_changes(nodes, root, state));
    assert forall|i: int| 0 <= i < changes.len() implies #[trigger] key_from(changes[i], 0)
        == unpacked(state.accounts@[i].0@) by {
        assert(key_from(changes[i], 0) =~= unpacked(state.accounts@[i].0@));
    }
    assert forall|key: Seq<u8>| left.contains_key(key) == #[trigger] right.contains_key(key) && (
    right.contains_key(key) ==> left[key] == right[key]) by {
        if left.contains_key(key) {
            let i = lemma_change_of(changes, rlps, 0, key);
            assert(is_entry_of(state.accounts@, key, i));
        }
        if right.contains_key(key) {
            let i = choose|i: int| is_entry_of(state.accounts@, key, i);
            assert(is_entry_of(state.accounts@, key, i));
            lemma_change_at(changes, rlps, 0, i);
            assert(changes[i].0 == state.accounts@[i].0);
        }
    }
    assert(left =~= right);
}

/// A change set drawn from every account of an ordered state is one a descent takes, and every account
/// could be recorded.
proof fn lemma_recorded_accounts(
    nodes: Map<[u8; 32], Seq<u8>>,
    root: [u8; 32],
    state: HashedPostStateSorted,
    changes: Seq<Change>,
    recorded_accounts: Seq<TrieAccount>,
    rlps: Seq<Seq<u8>>,
)
    requires
        state.well_formed(),
        records_accounts(nodes, root, state, changes, recorded_accounts),
        changes.len() == state.accounts@.len(),
        rlps.len() == recorded_accounts.len(),
        forall|i: int|
            0 <= i < recorded_accounts.len() ==> #[trigger] rlps[i] == account_rlp(
                recorded_accounts[i],
            ),
    ensures
        in_order(changes),
        names_values(changes, rlps.len()),
        change_map(changes, rlps, 0) == state_changes(nodes, root, state),
        forall|i: int| 0 <= i < rlps.len() ==> (#[trigger] rlps[i]).len() <= MAX_LEAF_VALUE,
        forall|i: int|
            0 <= i < state.accounts@.len() ==> #[trigger] account_after(nodes, root, state, i) is Ok,
{
    lemma_agree_at_root(changes);
    assert forall|i: int, j: int| 0 <= i < j < changes.len() implies precedes(
        (#[trigger] changes[i]).0@,
        (#[trigger] changes[j]).0@,
    ) by {
        assert(changes[i].0 == state.accounts@[i].0);
        assert(changes[j].0 == state.accounts@[j].0);
    }
    lemma_state_changes(nodes, root, state, changes, recorded_accounts, rlps);
    assert forall|i: int| 0 <= i < rlps.len() implies (#[trigger] rlps[i]).len() <= MAX_LEAF_VALUE by {
        lemma_account_width(recorded_accounts[i]);
    }
    assert forall|i: int| 0 <= i < state.accounts@.len() implies #[trigger] account_after(
        nodes,
        root,
        state,
        i,
    ) is Ok by {
        assert(changes[i].0 == state.accounts@[i].0);
    }
}

/// Keys agree where nothing of them has been taken.
proof fn lemma_agree_at_root(changes: Seq<Change>)
    ensures
        agree(changes, 0),
{
    assert forall|i: int, j: int| 0 <= i < changes.len() && 0 <= j < changes.len() implies unpacked(
        (#[trigger] changes[i]).0@,
    ).subrange(0, 0) == unpacked((#[trigger] changes[j]).0@).subrange(0, 0) by {
        assert(unpacked(changes[i].0@).subrange(0, 0) =~= unpacked(changes[j].0@).subrange(0, 0));
    }
}

/// A path a key follows from a depth is one it starts with there.
proof fn lemma_follows_key(key: [u8; 32], depth: nat, path: Seq<u8>)
    requires
        depth <= 64,
    ensures
        follows(unpacked(key@), depth as int, path) == starts_with(
            unpacked(key@).skip(depth as int),
            path,
        ),
{
    if depth + path.len() <= 64 {
        assert(unpacked(key@).subrange(depth as int, (depth + path.len()) as int) =~= unpacked(
            key@,
        ).skip(depth as int).subrange(0, path.len() as int));
    }
}

} // verus!
