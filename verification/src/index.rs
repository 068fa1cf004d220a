//! The hash maps the state holds what it was given and what it has read in.

use alloy_primitives::map::{B256IndexMap, B256Map};
use vstd::prelude::*;

use crate::account::TrieAccount;
use crate::state::HashedStorageSorted;

verus! {

/// The key of every map here.
#[verifier::external_type_specification]
#[verifier::external_body]
pub struct ExFixedBytes<const N: usize>(alloy_primitives::FixedBytes<N>);

/// The hasher every map here hashes its keys with.
#[verifier::external_type_specification]
#[verifier::external_body]
pub struct ExFbBuildHasher<const N: usize>(alloy_primitives::map::FbBuildHasher<N>);

/// Bytecode by its hash, in the order its keys came in.
#[verifier::external_body]
pub struct CodeMap {
    map: B256IndexMap<Vec<u8>>,
}

/// The nodes a map holds, by digest.
pub uninterp spec fn node_entries(nodes: B256Map<&'static [u8]>) -> Map<[u8; 32], Seq<u8>>;

/// The accounts a map holds, by hashed address.
pub uninterp spec fn account_entries(accounts: B256Map<TrieAccount>) -> Map<[u8; 32], TrieAccount>;

/// What was written to the storage of each account a map holds, by hashed address.
pub uninterp spec fn storage_entries(storages: B256Map<HashedStorageSorted>) -> Map<
    [u8; 32],
    HashedStorageSorted,
>;

/// The bytecode a map holds, in order.
pub uninterp spec fn code_entries(codes: CodeMap) -> Seq<([u8; 32], Seq<u8>)>;

/// `HashMap::default`, a map that holds nothing.
#[verifier::external_body]
pub(crate) fn no_nodes() -> (nodes: B256Map<&'static [u8]>)
    ensures
        forall|digest: [u8; 32]| !node_entries(nodes).contains_key(digest),
{
    B256Map::default()
}

/// `HashMap::get`, what the map holds under a digest.
#[verifier::external_body]
pub(crate) fn node_at(nodes: &B256Map<&'static [u8]>, digest: [u8; 32]) -> (found: Option<
    &'static [u8],
>)
    ensures
        found is Some <==> node_entries(*nodes).contains_key(digest),
        found matches Some(node_rlp) ==> node_rlp@ == node_entries(*nodes)[digest],
{
    nodes.get(&alloy_primitives::B256::from(digest)).copied()
}

/// `HashMap::insert`, which leaves a digest standing for the node it came with last.
#[verifier::external_body]
pub(crate) fn insert_node(
    nodes: &mut B256Map<&'static [u8]>,
    digest: [u8; 32],
    node_rlp: &'static [u8],
)
    ensures
        node_entries(*final(nodes)) == node_entries(*old(nodes)).insert(digest, node_rlp@),
{
    nodes.insert(alloy_primitives::B256::from(digest), node_rlp);
}

/// `HashMap::default`, a map that holds nothing.
#[verifier::external_body]
pub(crate) fn no_accounts() -> (accounts: B256Map<TrieAccount>)
    ensures
        forall|hashed_address: [u8; 32]| !account_entries(accounts).contains_key(hashed_address),
{
    B256Map::default()
}

/// `HashMap::get`, what the map holds under a hashed address.
#[verifier::external_body]
pub(crate) fn account_of(accounts: &B256Map<TrieAccount>, hashed_address: [u8; 32]) -> (found: Option<
    TrieAccount,
>)
    ensures
        found is Some <==> account_entries(*accounts).contains_key(hashed_address),
        found matches Some(account) ==> account == account_entries(*accounts)[hashed_address],
{
    accounts.get(&alloy_primitives::B256::from(hashed_address)).copied()
}

/// `HashMap::insert`, which leaves a hashed address standing for the account it came with last.
#[verifier::external_body]
pub(crate) fn insert_account(
    accounts: &mut B256Map<TrieAccount>,
    hashed_address: [u8; 32],
    account: TrieAccount,
)
    ensures
        account_entries(*final(accounts)) == account_entries(*old(accounts)).insert(
            hashed_address,
            account,
        ),
{
    accounts.insert(alloy_primitives::B256::from(hashed_address), account);
}

/// `HashMap::default`, a map that holds nothing.
#[verifier::external_body]
pub(crate) fn no_storages() -> (storages: B256Map<HashedStorageSorted>)
    ensures
        forall|hashed_address: [u8; 32]| !storage_entries(storages).contains_key(hashed_address),
{
    B256Map::default()
}

/// `HashMap::get`, what the map holds under a hashed address.
#[verifier::external_body]
pub(crate) fn storage_at(
    storages: &B256Map<HashedStorageSorted>,
    hashed_address: [u8; 32],
) -> (found: Option<&HashedStorageSorted>)
    ensures
        found is Some <==> storage_entries(*storages).contains_key(hashed_address),
        found matches Some(storage) ==> *storage == storage_entries(*storages)[hashed_address],
{
    storages.get(&alloy_primitives::B256::from(hashed_address))
}

/// `HashMap::insert`, which leaves a hashed address standing for the storage it came with last.
#[verifier::external_body]
pub(crate) fn insert_storage(
    storages: &mut B256Map<HashedStorageSorted>,
    hashed_address: [u8; 32],
    storage: HashedStorageSorted,
)
    ensures
        storage_entries(*final(storages)) == storage_entries(*old(storages)).insert(
            hashed_address,
            storage,
        ),
{
    storages.insert(alloy_primitives::B256::from(hashed_address), storage);
}

/// The entries with `code` under `digest`: in the place `digest` already has, and at the end where
/// it has none.
pub open spec fn with_code(
    entries: Seq<([u8; 32], Seq<u8>)>,
    digest: [u8; 32],
    code: Seq<u8>,
) -> Seq<([u8; 32], Seq<u8>)>
    decreases entries.len(),
{
    if entries.len() == 0 {
        seq![(digest, code)]
    } else if entries[0].0 == digest {
        seq![(digest, code)] + entries.skip(1)
    } else {
        seq![entries[0]] + with_code(entries.skip(1), digest, code)
    }
}

/// What each entry holds.
pub open spec fn codes_view(entries: Seq<([u8; 32], Vec<u8>)>) -> Seq<([u8; 32], Seq<u8>)> {
    Seq::new(entries.len(), |i: int| (entries[i].0, entries[i].1@))
}

/// `IndexMap::default`, a map that holds nothing.
#[verifier::external_body]
pub(crate) fn no_codes() -> (codes: CodeMap)
    ensures
        code_entries(codes).len() == 0,
{
    CodeMap { map: B256IndexMap::default() }
}

/// `IndexMap::insert`, which replaces what a key stands for where it is and appends a key it has
/// not seen.
#[verifier::external_body]
pub(crate) fn insert_code(codes: &mut CodeMap, digest: [u8; 32], code: Vec<u8>)
    ensures
        code_entries(*final(codes)) == with_code(code_entries(*old(codes)), digest, code@),
{
    codes.map.insert(alloy_primitives::B256::from(digest), code);
}

/// `IndexMap::into_iter`, which hands the entries out in the order their keys came in.
#[verifier::external_body]
pub(crate) fn into_codes(codes: CodeMap) -> (entries: Vec<([u8; 32], Vec<u8>)>)
    ensures
        codes_view(entries@) == code_entries(codes),
{
    codes.map.into_iter().map(|(digest, code)| (digest.0, code)).collect()
}

} // verus!
