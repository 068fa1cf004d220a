//! What the tries record: an account in the state trie, a word in a storage trie.

use vstd::prelude::*;

use crate::canonical::lemma_be_len;
use crate::keccak::digest_of;
use crate::node::{DIGEST_LEN, MAX_LEAF_VALUE};
use crate::rlp::{be_bytes, be_value, header_of, rlp_list, rlp_string, string_of};
use crate::stack::{lemma_header_len, zeros, DynStack};
use crate::values::{encode_value, ChangedValues, LeafValue};

verus! {

/// An account as the state trie records it.
#[derive(Debug, Clone, Copy)]
pub struct TrieAccount {
    /// Transactions the account has sent.
    pub nonce: u64,
    /// What the account holds, as a big-endian number.
    pub balance: [u8; 32],
    /// The root of the account's storage trie.
    pub storage_root: [u8; 32],
    /// The hash of the account's bytecode.
    pub code_hash: [u8; 32],
}

/// Bytes without the zeros they start with.
pub open spec fn stripped(bytes: Seq<u8>) -> Seq<u8>
    decreases bytes.len(),
{
    if bytes.len() > 0 && bytes[0] == 0 {
        stripped(bytes.skip(1))
    } else {
        bytes
    }
}

/// The word a number of `bytes` is, zeros in front.
pub open spec fn padded(bytes: Seq<u8>) -> [u8; 32] {
    digest_of(zeros((DIGEST_LEN - bytes.len()) as nat) + bytes)
}

/// The RLP of a word, which is a number without the zeros it starts with.
pub open spec fn word_rlp(word: [u8; 32]) -> Seq<u8> {
    rlp_string(stripped(word@))
}

/// The RLP of an account.
pub open spec fn account_rlp(account: TrieAccount) -> Seq<u8> {
    rlp_list(
        rlp_string(be_bytes(account.nonce as nat)) + word_rlp(account.balance) + rlp_string(
            account.storage_root@,
        ) + rlp_string(account.code_hash@),
    )
}

/// What follows the string `buf` opens with.
pub open spec fn after_string(buf: Seq<u8>) -> Seq<u8> {
    let header = header_of(buf)->Ok_0;
    buf.skip((header.skipped + header.payload_length) as int)
}

/// The number of a machine word `buf` opens with.
pub open spec fn u64_of(buf: Seq<u8>) -> Result<u64, alloy_rlp::Error> {
    match string_of(buf) {
        Err(error) => Err(error),
        Ok(bytes) => if bytes.len() > 8 {
            Err(alloy_rlp::Error::Overflow)
        } else if bytes.len() > 0 && bytes[0] == 0 {
            Err(alloy_rlp::Error::LeadingZero)
        } else {
            Ok(be_value(bytes) as u64)
        },
    }
}

/// The word `buf` opens with.
pub open spec fn word_of(buf: Seq<u8>) -> Result<[u8; 32], alloy_rlp::Error> {
    match string_of(buf) {
        Err(error) => Err(error),
        Ok(bytes) => if bytes.len() > 0 && bytes[0] == 0 {
            Err(alloy_rlp::Error::LeadingZero)
        } else if bytes.len() > DIGEST_LEN {
            Err(alloy_rlp::Error::Overflow)
        } else {
            Ok(padded(bytes))
        },
    }
}

/// The hash `buf` opens with.
pub open spec fn hash_of(buf: Seq<u8>) -> Result<[u8; 32], alloy_rlp::Error> {
    match string_of(buf) {
        Err(error) => Err(error),
        Ok(bytes) => if bytes.len() != DIGEST_LEN {
            Err(alloy_rlp::Error::UnexpectedLength)
        } else {
            Ok(digest_of(bytes))
        },
    }
}

/// The account whose four fields `payload` holds and nothing behind them.
pub open spec fn fields_of(payload: Seq<u8>) -> Result<TrieAccount, alloy_rlp::Error> {
    match u64_of(payload) {
        Err(error) => Err(error),
        Ok(nonce) => {
            let second = after_string(payload);
            match word_of(second) {
                Err(error) => Err(error),
                Ok(balance) => {
                    let third = after_string(second);
                    match hash_of(third) {
                        Err(error) => Err(error),
                        Ok(storage_root) => {
                            let fourth = after_string(third);
                            match hash_of(fourth) {
                                Err(error) => Err(error),
                                Ok(code_hash) => if after_string(fourth).len() > 0 {
                                    Err(alloy_rlp::Error::UnexpectedLength)
                                } else {
                                    Ok(TrieAccount { nonce, balance, storage_root, code_hash })
                                },
                            }
                        },
                    }
                },
            }
        },
    }
}

/// The account `value` opens with.
pub open spec fn account_of_rlp(value: Seq<u8>) -> Result<TrieAccount, alloy_rlp::Error> {
    match header_of(value) {
        Err(error) => Err(error),
        Ok(header) => if !header.list {
            Err(alloy_rlp::Error::UnexpectedString)
        } else {
            fields_of(
                value.subrange(
                    header.skipped as int,
                    (header.skipped + header.payload_length) as int,
                ),
            )
        },
    }
}

/// `alloy_rlp::Encodable::length` of an `alloy_trie::TrieAccount`, the length it encodes to.
#[verifier::external_body]
fn account_length(account: &TrieAccount) -> (len: usize)
    ensures
        len == account_rlp(*account).len(),
{
    let balance = alloy_primitives::U256::from_be_bytes(account.balance);
    let storage_root = alloy_primitives::B256::from(account.storage_root);
    let code_hash = alloy_primitives::B256::from(account.code_hash);
    let account = alloy_trie::TrieAccount::new(account.nonce, balance, storage_root, code_hash);
    alloy_rlp::Encodable::length(&account)
}

/// `alloy_rlp::Encodable::encode` of an `alloy_trie::TrieAccount`, which writes a list of the four
/// fields, numbers without the zeros they start with.
#[verifier::external_body]
fn write_account(account: &TrieAccount, out: &mut [u8])
    requires
        old(out)@.len() == account_rlp(*account).len(),
    ensures
        final(out)@ == account_rlp(*account),
{
    let balance = alloy_primitives::U256::from_be_bytes(account.balance);
    let storage_root = alloy_primitives::B256::from(account.storage_root);
    let code_hash = alloy_primitives::B256::from(account.code_hash);
    let account = alloy_trie::TrieAccount::new(account.nonce, balance, storage_root, code_hash);
    let mut cursor = out;
    alloy_rlp::Encodable::encode(&account, &mut cursor);
}

/// `alloy_rlp::Decodable::decode` of an `alloy_trie::TrieAccount`, which reads the four fields of
/// the list at the front of `value` in order. It is taken to accept and refuse as
/// [`account_of_rlp`] states.
#[verifier::external_body]
pub(crate) fn decode_account(value: &[u8]) -> (decoded: Result<TrieAccount, alloy_rlp::Error>)
    ensures
        decoded == account_of_rlp(value@),
{
    let mut rest = value;
    let account = <alloy_trie::TrieAccount as alloy_rlp::Decodable>::decode(&mut rest)?;
    Ok(TrieAccount {
        nonce: account.nonce,
        balance: account.balance.to_be_bytes::<32>(),
        storage_root: account.storage_root.0,
        code_hash: account.code_hash.0,
    })
}

/// `alloy_rlp::Encodable::length` of a `U256`, the length it encodes to.
#[verifier::external_body]
fn word_length(word: &[u8; 32]) -> (len: usize)
    ensures
        len == word_rlp(*word).len(),
{
    alloy_rlp::Encodable::length(&alloy_primitives::U256::from_be_bytes(*word))
}

/// `alloy_rlp::Encodable::encode` of a `U256`, which writes it without the zeros it starts with.
#[verifier::external_body]
fn write_word(word: &[u8; 32], out: &mut [u8])
    requires
        old(out)@.len() == word_rlp(*word).len(),
    ensures
        final(out)@ == word_rlp(*word),
{
    let mut cursor = out;
    alloy_rlp::Encodable::encode(&alloy_primitives::U256::from_be_bytes(*word), &mut cursor);
}

/// `alloy_rlp::Decodable::decode` of a `U256`, which reads the number at the front of `value`. It is
/// taken to accept and refuse as [`word_of`] states.
#[verifier::external_body]
pub(crate) fn decode_word(value: &[u8]) -> (decoded: Result<[u8; 32], alloy_rlp::Error>)
    ensures
        decoded == word_of(value@),
{
    let mut rest = value;
    let word = <alloy_primitives::U256 as alloy_rlp::Decodable>::decode(&mut rest)?;
    Ok(word.to_be_bytes::<32>())
}

impl LeafValue for TrieAccount {
    open spec fn rlp(&self) -> Seq<u8> {
        account_rlp(*self)
    }

    fn rlp_length(&self) -> (len: usize) {
        account_length(self)
    }

    fn write_rlp(&self, out: &mut [u8]) {
        write_account(self, out)
    }
}

/// A word as a storage slot is left at it.
impl LeafValue for [u8; 32] {
    open spec fn rlp(&self) -> Seq<u8> {
        word_rlp(*self)
    }

    fn rlp_length(&self) -> (len: usize) {
        word_length(self)
    }

    fn write_rlp(&self, out: &mut [u8]) {
        write_word(self, out)
    }
}

/// Accounts, each already carrying the storage root recomputing it produced.
impl ChangedValues for [TrieAccount] {
    open spec fn rlps(&self) -> Seq<Seq<u8>> {
        Seq::new(self@.len(), |i: int| account_rlp(self@[i]))
    }

    fn encode<'s>(&self, index: u32, stack: &mut DynStack<'s>) -> (value_rlp: &'s [u8]) {
        let account = &self[index as usize];
        proof {
            lemma_account_width(*account);
        }
        encode_value(account, stack)
    }
}

/// Storage slots, indexed as the change set that named them.
impl ChangedValues for [([u8; 32], [u8; 32])] {
    open spec fn rlps(&self) -> Seq<Seq<u8>> {
        Seq::new(self@.len(), |i: int| word_rlp(self@[i].1))
    }

    fn encode<'s>(&self, index: u32, stack: &mut DynStack<'s>) -> (value_rlp: &'s [u8]) {
        let word = &self[index as usize].1;
        proof {
            lemma_word_width(*word);
        }
        encode_value(word, stack)
    }
}

/// The values accounts and slots carry are those accounts and those words, each in its place.
pub proof fn law_values_in_place(
    accounts: &[TrieAccount],
    slots: &[([u8; 32], [u8; 32])],
    values: &[&[u8]],
)
    ensures
        accounts.rlps().len() == accounts@.len(),
        slots.rlps().len() == slots@.len(),
        values.rlps().len() == values@.len(),
        forall|i: int|
            0 <= i < accounts@.len() ==> #[trigger] accounts.rlps()[i] == account_rlp(accounts@[i]),
        forall|i: int| 0 <= i < slots@.len() ==> #[trigger] slots.rlps()[i] == word_rlp(slots@[i].1),
        forall|i: int| 0 <= i < values@.len() ==> #[trigger] values.rlps()[i] == values@[i]@,
{
}

/// What is left of a word without the zeros it starts with is no longer than it.
pub proof fn lemma_stripped(bytes: Seq<u8>)
    ensures
        stripped(bytes).len() <= bytes.len(),
        stripped(bytes).len() > 0 ==> stripped(bytes)[0] != 0,
        zeros((bytes.len() - stripped(bytes).len()) as nat) + stripped(bytes) == bytes,
    decreases bytes.len(),
{
    if bytes.len() > 0 && bytes[0] == 0 {
        lemma_stripped(bytes.skip(1));
        let rest = bytes.skip(1);
        let front = zeros((bytes.len() - stripped(bytes).len()) as nat);
        assert forall|i: int| 0 <= i < bytes.len() implies (front + stripped(bytes))[i]
            == #[trigger] bytes[i] by {
            if i > 0 {
                assert(rest[i - 1] == bytes[i]);
                assert((zeros((rest.len() - stripped(rest).len()) as nat) + stripped(rest))[i - 1]
                    == rest[i - 1]);
            }
        }
    }
    assert(zeros((bytes.len() - stripped(bytes).len()) as nat) + stripped(bytes) =~= bytes);
}

/// A word encodes to no more than a reference.
pub proof fn lemma_word_width(word: [u8; 32])
    ensures
        word_rlp(word).len() <= 33,
{
    lemma_stripped(word@);
}

/// An account encodes to no more than the widest value a leaf carries.
pub proof fn lemma_account_width(account: TrieAccount)
    ensures
        account_rlp(account).len() <= MAX_LEAF_VALUE,
{
    lemma_word_width(account.balance);
    lemma_be_len(account.nonce as nat);
    lemma_header_len(
        (rlp_string(be_bytes(account.nonce as nat)) + word_rlp(account.balance) + rlp_string(
            account.storage_root@,
        ) + rlp_string(account.code_hash@)).len(),
    );
}

} // verus!
