//! A stateless walk of the Ethereum world state.
//!
//! A block comes with a witness, the trie nodes its execution reads, and the root its parent commits
//! to. [`path`] indexes the witness by hash, reads accounts and storage out of it and recomputes the
//! state root a block ends with, building in the scratch [`stack`] hands out. [`guest`] decides what
//! becomes of a payload.
//!
//! What a read and an update come to is stated over the bytes of the witness in [`descent`], and
//! over the entries of the tries behind it in [`laws`] and [`world`]: a witness can leave a question
//! unanswered but not answer it wrong.

pub mod account;
pub mod batch;
pub mod block;
pub mod bound;
pub mod canonical;
pub mod changes;
pub mod codes;
pub mod descent;
pub mod encode;
pub mod error;
pub mod floor;
pub mod forms;
pub mod frames;
pub mod guest;
pub mod index;
pub mod keccak;
pub mod laws;
pub mod nibbles;
pub mod node;
pub mod outcome;
pub mod path;
pub mod reads;
pub mod recorded;
pub mod rlp;
pub mod room;
pub mod stack;
pub mod state;
pub mod steps;
pub mod trie;
pub mod update;
pub mod values;
pub mod witness;
pub mod world;
