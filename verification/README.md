# stateless-validator-reth

The guest side of stateless block validation, verified with Verus. A block arrives with a witness,
the Merkle Patricia trie nodes its execution reads. The library reads accounts and storage out of
that witness and recomputes the state root the block ends with, without building the trie.

## Layout

| Where | What |
| --- | --- |
| `src/path.rs` | `PathState`: indexing a witness, reads, storage roots, the state root |
| `src/reads.rs` | what a state remembers of the reads it has answered |
| `src/update.rs`, `src/steps.rs` | the descent that applies a change set, and what each step of it comes to |
| `src/descent.rs` | what a walk and an update come to, over the bytes of the witness |
| `src/trie.rs`, `src/canonical.rs`, `src/recorded.rs` | the canonical trie of a set of entries, and reading its nodes back |
| `src/outcome.rs`, `src/laws.rs`, `src/world.rs` | what reads and updates promise of the tries behind the witness |
| `src/nibbles.rs`, `src/node.rs`, `src/encode.rs`, `src/rlp.rs` | paths, nodes and RLP |
| `src/stack.rs` | the scratch a descent builds in, and the bound on it |
| `src/floor.rs`, `src/room.rs`, `src/bound.rs` | what a descent holds at least and at most, and the shapes that reach the bounds |
| `src/account.rs`, `src/values.rs`, `src/changes.rs`, `src/state.rs` | what the tries record and what a block changes |
| `src/index.rs`, `src/keccak.rs` | the hash maps and the hash |
| `src/error.rs` | what ends a walk or an update short of an answer |
| `src/guest.rs` | what becomes of a payload |
| `app/` | the guest program around the library |
| `tests/` | the library run against tries built from scratch |

## What is proved

- A read finds what the trie holds under the key, or names a node along the key that the witness
  lacks (`law_read`).
- An update comes to the root of the trie with the changes made, or names a node the witness lacks
  along a changed key or, for a removal, beside one (`law_update_root`).
- The state root commits to every touched account over the root of the storage it is left with
  (`law_state_root`).
- Whatever a witness holds, it never leads to a wrong answer, short of a hash collision
  (`law_bad_witness_never_misleads`).
- A descent over values no wider than an account holds at most `STACK_LEN` bytes of scratch at once,
  all of them in the buffer it was given (`PathState::batch_update`), and one descent holds every one
  of them (`law_bound_is_reached`). Over a canonical trie 101 of them are never held
  (`law_canonical_bound`), and one descent holds all the others (`law_canonical_bound_is_reached`).
- A batch comes to the root its changes come to one at a time, in any order (`law_one_at_a_time`,
  `law_updates_compose`, `law_order_does_not_matter`).

What the outside crates do (Keccak, RLP headers, account and word encodings, hash maps) is stated on
the functions that call them and not proved.
