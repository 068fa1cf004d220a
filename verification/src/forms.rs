//! The bytes Ethereum fixes: how nibbles are packed, how a path is flagged, how RLP writes strings,
//! lists, numbers and nodes. Everything here speaks of single bytes, so what a node hashes to is told
//! without the functions that write and read it.

use vstd::prelude::*;

use crate::account::{account_rlp, stripped, word_rlp, TrieAccount};
use crate::canonical::lemma_be_round_trip;
use crate::encode::{
    branch_rlp, digest_item, encoded_extension_rlp, encoded_leaf_rlp, extension_rlp, joined,
    leaf_rlp, reference_of,
};
use crate::keccak::{empty_root, keccak, lemma_digest_of};
use crate::nibbles::{flags_leaf, hex_prefix, is_path, lemma_byte_bits, packed, path_of, unpacked};
use crate::node::empty_rlp;
use crate::rlp::{be_bytes, be_value, header_len, rlp_list, rlp_string};
use crate::stack::{
    carried_bytes, lemma_branch_carry, list_bytes, path_bytes, residual_bytes, zeros,
};
use crate::state::zero_word;
use crate::trie::{
    all_start_with, below, is_split, lemma_below_below, lemma_trie_empty, lemma_trie_items,
    lemma_trie_leaf, lemma_trie_split, parts, starts_with, trie_items, trie_rlp,
};

verus! {

/// Two nibbles make up each byte, the high one first.
pub proof fn law_nibbles_of_bytes(bytes: Seq<u8>)
    ensures
        unpacked(bytes).len() == 2 * bytes.len(),
        forall|i: int|
            0 <= i < bytes.len() ==> {
                &&& unpacked(bytes)[2 * i] < 16
                &&& unpacked(bytes)[2 * i + 1] < 16
                &&& unpacked(bytes)[2 * i] * 16 + unpacked(bytes)[2 * i + 1] == #[trigger] bytes[i]
            },
{
}

/// Byte strings of the same nibbles are the same.
pub proof fn law_bytes_told_by_nibbles(left: Seq<u8>, right: Seq<u8>)
    requires
        unpacked(left) == unpacked(right),
    ensures
        left == right,
{
    law_nibbles_of_bytes(left);
    law_nibbles_of_bytes(right);
    assert(left.len() == right.len());
    assert forall|i: int| 0 <= i < left.len() implies #[trigger] left[i] == right[i] by {
        assert(unpacked(left)[2 * i] * 16 + unpacked(left)[2 * i + 1] == left[i]);
        assert(unpacked(right)[2 * i] * 16 + unpacked(right)[2 * i + 1] == right[i]);
    }
    assert(left =~= right);
}

/// The form a path is written in: a flag byte, which tells a leaf from an extension and holds the
/// first nibble of an odd path and nothing of an even one, and the other nibbles two to a byte.
pub proof fn law_hex_prefix_bytes(path: Seq<u8>, is_leaf: bool)
    requires
        is_path(path),
    ensures
        hex_prefix(path, is_leaf).len() == 1 + path.len() / 2,
        path.len() % 2 == 0 ==> hex_prefix(path, is_leaf)[0] == (if is_leaf { 0x20u8 } else { 0x00 }),
        path.len() % 2 == 1 ==> hex_prefix(path, is_leaf)[0] == (if is_leaf {
            0x30int
        } else {
            0x10
        }) + path[0],
        path.len() % 2 == 0 ==> forall|i: int|
            0 <= i < path.len() / 2 ==> #[trigger] hex_prefix(path, is_leaf)[1 + i] == path[2 * i] * 16
                + path[2 * i + 1],
        path.len() % 2 == 1 ==> forall|i: int|
            0 <= i < path.len() / 2 ==> #[trigger] hex_prefix(path, is_leaf)[1 + i] == path[2 * i + 1]
                * 16 + path[2 * i + 2],
{
    let encoded = hex_prefix(path, is_leaf);
    assert forall|i: int| 0 <= i < path.len() implies #[trigger] path[i] < 16 by {}
    if path.len() % 2 == 0 {
        assert forall|i: int| 0 <= i < path.len() / 2 implies #[trigger] encoded[1 + i] == path[2 * i]
            * 16 + path[2 * i + 1] by {
            assert(encoded[1 + i] == packed(path)[i]);
            assert(path[2 * i] < 16 && path[2 * i + 1] < 16);
        }
    } else {
        let rest = path.skip(1);
        assert(path[0] < 16);
        assert forall|i: int| 0 <= i < path.len() / 2 implies #[trigger] encoded[1 + i] == path[2 * i
            + 1] * 16 + path[2 * i + 2] by {
            assert(encoded[1 + i] == packed(rest)[i]);
            assert(rest[2 * i] == path[2 * i + 1] && rest[2 * i + 1] == path[2 * i + 2]);
            assert(path[2 * i + 1] < 16 && path[2 * i + 2] < 16);
        }
    }
}

/// The path any encoding holds, whatever its flags: two nibbles for each byte behind the first, and
/// ahead of them the low nibble of the first byte where its bit for an odd path is set. Whether it is
/// a leaf's is told by another bit of that byte alone.
pub proof fn law_path_bytes(encoded: Seq<u8>)
    requires
        encoded.len() > 0,
    ensures
        flags_leaf(encoded[0]) == (encoded[0] & 0x20 != 0),
        ({
            let odd: int = if encoded[0] & 0x10 != 0 { 1 } else { 0 };
            &&& path_of(encoded).len() == 2 * (encoded.len() - 1) + odd
            &&& odd == 1 ==> path_of(encoded)[0] == encoded[0] & 0x0f
            &&& forall|i: int|
                1 <= i < encoded.len() ==> {
                    &&& path_of(encoded)[odd + 2 * i - 2] < 16
                    &&& path_of(encoded)[odd + 2 * i - 1] < 16
                    &&& path_of(encoded)[odd + 2 * i - 2] * 16 + path_of(encoded)[odd + 2 * i - 1]
                        == #[trigger] encoded[i]
                }
        }),
{
    lemma_byte_bits(encoded[0]);
    let odd: int = if encoded[0] & 0x10 != 0 { 1 } else { 0 };
    let path = path_of(encoded);
    let rest = encoded.skip(1);
    assert forall|i: int| 1 <= i < encoded.len() implies {
        &&& path[odd + 2 * i - 2] < 16
        &&& path[odd + 2 * i - 1] < 16
        &&& path[odd + 2 * i - 2] * 16 + path[odd + 2 * i - 1] == #[trigger] encoded[i]
    } by {
        assert(rest[i - 1] == encoded[i]);
        assert(path[odd + 2 * i - 2] == unpacked(rest)[2 * (i - 1)]);
        assert(path[odd + 2 * i - 1] == unpacked(rest)[2 * (i - 1) + 1]);
        assert(unpacked(rest)[2 * (i - 1)] == rest[i - 1] / 16);
        assert(unpacked(rest)[2 * (i - 1) + 1] == rest[i - 1] % 16);
    }
}

/// Numbers below the square of the base take the bytes they are made of.
proof fn lemma_short_number(value: nat)
    ensures
        0 < value < 256 ==> be_bytes(value) == seq![value as u8],
        256 <= value < 65536 ==> be_bytes(value) == seq![(value / 256) as u8, (value % 256) as u8],
{
    reveal_with_fuel(be_bytes, 3);
    if 0 < value < 256 {
        assert(be_bytes(value) =~= seq![value as u8]);
    } else if 256 <= value < 65536 {
        assert(be_bytes(value) =~= seq![(value / 256) as u8, (value % 256) as u8]);
    }
}

/// What a string is written as: a single low byte as itself, and any other behind a header that
/// counts it.
pub proof fn law_string_bytes(bytes: Seq<u8>)
    ensures
        bytes.len() == 1 && bytes[0] < 0x80 ==> rlp_string(bytes) == bytes,
        bytes.len() < 56 && !(bytes.len() == 1 && bytes[0] < 0x80) ==> rlp_string(bytes) == seq![
            (0x80 + bytes.len()) as u8,
        ] + bytes,
        56 <= bytes.len() < 256 ==> rlp_string(bytes) == seq![0xb8u8, bytes.len() as u8] + bytes,
        256 <= bytes.len() < 65536 ==> rlp_string(bytes) == seq![
            0xb9u8,
            (bytes.len() / 256) as u8,
            (bytes.len() % 256) as u8,
        ] + bytes,
        bytes.len() >= 56 ==> rlp_string(bytes) == seq![(0xb7 + be_bytes(bytes.len()).len()) as u8]
            + be_bytes(bytes.len()) + bytes,
{
    lemma_short_number(bytes.len());
    if 56 <= bytes.len() < 256 {
        assert(rlp_string(bytes) =~= seq![0xb8u8, bytes.len() as u8] + bytes);
    } else if 256 <= bytes.len() < 65536 {
        assert(rlp_string(bytes) =~= seq![
            0xb9u8,
            (bytes.len() / 256) as u8,
            (bytes.len() % 256) as u8,
        ] + bytes);
    }
}

/// What a list is written as: its items behind a header that counts their bytes.
pub proof fn law_list_bytes(payload: Seq<u8>)
    ensures
        payload.len() < 56 ==> rlp_list(payload) == seq![(0xc0 + payload.len()) as u8] + payload,
        56 <= payload.len() < 256 ==> rlp_list(payload) == seq![0xf8u8, payload.len() as u8]
            + payload,
        256 <= payload.len() < 65536 ==> rlp_list(payload) == seq![
            0xf9u8,
            (payload.len() / 256) as u8,
            (payload.len() % 256) as u8,
        ] + payload,
        payload.len() >= 56 ==> rlp_list(payload) == seq![
            (0xf7 + be_bytes(payload.len()).len()) as u8,
        ] + be_bytes(payload.len()) + payload,
{
    lemma_short_number(payload.len());
    if 56 <= payload.len() < 256 {
        assert(rlp_list(payload) =~= seq![0xf8u8, payload.len() as u8] + payload);
    } else if 256 <= payload.len() < 65536 {
        assert(rlp_list(payload) =~= seq![
            0xf9u8,
            (payload.len() / 256) as u8,
            (payload.len() % 256) as u8,
        ] + payload);
    }
}

/// What is counted for a list, for a header and for a path is what each takes written out.
pub proof fn law_counted_bytes(payload: Seq<u8>, path: Seq<u8>, is_leaf: bool)
    requires
        is_path(path),
    ensures
        list_bytes(payload.len() as int) == rlp_list(payload).len(),
        header_len(payload.len()) == rlp_list(payload).len() - payload.len(),
        path_bytes(path.len() as int) == rlp_string(hex_prefix(path, is_leaf)).len(),
{
    law_hex_prefix_bytes(path, is_leaf);
    if path.len() == 1 {
        assert(path[0] < 16);
    }
}

/// What a frame is counted to carry is what is left of an extension it splits at its first nibble, the
/// reference to that, fifteen references more and the widest branch.
pub proof fn law_frame_carry(path: Seq<u8>, item: Seq<u8>, depth: int)
    requires
        is_path(path),
        0 <= depth < 64,
        path.len() == 63 - depth,
        item.len() == 33,
    ensures
        carried_bytes(depth) == extension_rlp(path, item).len() + 33 + 15 * 33 + 532,
        residual_bytes(depth) == extension_rlp(path, item).len(),
{
    law_counted_bytes(rlp_string(hex_prefix(path, false)) + item, path, false);
    lemma_branch_carry();
}

/// The number bytes write, most significant first: a byte in front counts once for every number the
/// bytes behind it could write.
pub proof fn law_number_of_bytes(bytes: Seq<u8>)
    ensures
        bytes.len() == 0 ==> be_value(bytes) == 0,
        bytes.len() == 1 ==> be_value(bytes) == bytes[0],
        forall|last: u8| #[trigger] be_value(bytes.push(last)) == 256 * be_value(bytes) + last,
{
    assert forall|last: u8| #[trigger] be_value(bytes.push(last)) == 256 * be_value(bytes)
        + last by {
        assert(bytes.push(last).drop_last() =~= bytes);
    }
    if bytes.len() == 1 {
        assert(be_value(bytes.drop_last()) == 0);
    }
}

/// A number is written in the bytes that make it up, without a zero in front.
pub proof fn law_number_bytes(value: nat)
    ensures
        be_value(be_bytes(value)) == value,
        be_bytes(value).len() > 0 ==> be_bytes(value)[0] != 0,
{
    lemma_be_round_trip(value);
}

/// The zeros bytes start with are all that is dropped of them.
proof fn lemma_stripped_bytes(bytes: Seq<u8>)
    ensures
        stripped(bytes).len() <= bytes.len(),
        stripped(bytes).len() > 0 ==> stripped(bytes)[0] != 0,
        forall|i: int|
            0 <= i < bytes.len() - stripped(bytes).len() ==> #[trigger] bytes[i] == 0,
        forall|i: int|
            0 <= i < stripped(bytes).len() ==> #[trigger] stripped(bytes)[i] == bytes[bytes.len()
                - stripped(bytes).len() + i],
    decreases bytes.len(),
{
    if bytes.len() > 0 && bytes[0] == 0 {
        let rest = bytes.skip(1);
        lemma_stripped_bytes(rest);
        assert forall|i: int| 0 <= i < bytes.len() - stripped(bytes).len() implies #[trigger] bytes[i]
            == 0 by {
            if i > 0 {
                assert(rest[i - 1] == bytes[i]);
            }
        }
        assert forall|i: int| 0 <= i < stripped(bytes).len() implies #[trigger] stripped(bytes)[i]
            == bytes[bytes.len() - stripped(bytes).len() + i] by {
            assert(stripped(rest)[i] == rest[rest.len() - stripped(rest).len() + i]);
        }
    }
}

/// What a word is written as: a string of its bytes from the first that is not zero on, which for the
/// word that is zero is no byte at all.
pub proof fn law_word_bytes(word: [u8; 32]) -> (digits: Seq<u8>)
    ensures
        word_rlp(word) == rlp_string(digits),
        digits.len() <= 32,
        digits.len() > 0 ==> digits[0] != 0,
        forall|i: int| 0 <= i < 32 - digits.len() ==> #[trigger] word@[i] == 0,
        forall|i: int| 0 <= i < digits.len() ==> #[trigger] digits[i] == word@[32 - digits.len() + i],
{
    lemma_stripped_bytes(word@);
    stripped(word@)
}

/// The word that is zero is that of zero bytes alone.
pub proof fn law_zero_word(word: [u8; 32])
    ensures
        word == zero_word() <==> forall|i: int| 0 <= i < 32 ==> #[trigger] word@[i] == 0,
{
    let zero = zeros(32) + Seq::<u8>::empty();
    let all = vstd::array::spec_array_fill_for_copy_type::<u8, 32>(0);
    assert(all@ =~= zero);
    lemma_digest_of(all);
    assert(zero_word() == all);
    if forall|i: int| 0 <= i < 32 ==> #[trigger] word@[i] == 0 {
        assert(word =~= all);
    } else if word == zero_word() {
        assert forall|i: int| 0 <= i < 32 implies #[trigger] word@[i] == 0 by {
            assert(all@[i] == 0);
        }
    }
}

/// What an account is written as: a list of its nonce and its balance, both without zeros in front,
/// the root of its storage and the hash of its code.
pub proof fn law_account_bytes(account: TrieAccount) -> (numbers: (Seq<u8>, Seq<u8>))
    ensures
        account_rlp(account) == rlp_list(
            rlp_string(numbers.0) + rlp_string(numbers.1) + rlp_string(account.storage_root@)
                + rlp_string(account.code_hash@),
        ),
        be_value(numbers.0) == account.nonce,
        numbers.0.len() > 0 ==> numbers.0[0] != 0,
        numbers.1.len() <= 32,
        numbers.1.len() > 0 ==> numbers.1[0] != 0,
        forall|i: int| 0 <= i < 32 - numbers.1.len() ==> #[trigger] account.balance@[i] == 0,
        forall|i: int|
            0 <= i < numbers.1.len() ==> #[trigger] numbers.1[i] == account.balance@[32
                - numbers.1.len() + i],
{
    lemma_be_round_trip(account.nonce as nat);
    lemma_stripped_bytes(account.balance@);
    (be_bytes(account.nonce as nat), stripped(account.balance@))
}

/// A path written out byte by byte is the form nodes hold it in.
proof fn lemma_hex_prefix_is(path: Seq<u8>, encoded: Seq<u8>, is_leaf: bool)
    requires
        is_path(path),
        encoded.len() == 1 + path.len() / 2,
        path.len() % 2 == 0 ==> encoded[0] == (if is_leaf { 0x20u8 } else { 0x00 }),
        path.len() % 2 == 1 ==> encoded[0] == (if is_leaf { 0x30int } else { 0x10 }) + path[0],
        forall|i: int|
            1 <= i < encoded.len() ==> #[trigger] encoded[i] == path[2 * i - 2 + path.len() % 2] * 16
                + path[2 * i - 1 + path.len() % 2],
    ensures
        hex_prefix(path, is_leaf) == encoded,
{
    law_hex_prefix_bytes(path, is_leaf);
    let written = hex_prefix(path, is_leaf);
    assert forall|i: int| 0 <= i < encoded.len() implies #[trigger] written[i] == encoded[i] by {
        if i > 0 {
            assert(written[1 + (i - 1)] == encoded[i]);
        }
    }
    assert(written =~= encoded);
}

/// What a leaf is written as: a list of two strings, its path behind the flag byte of a leaf and its
/// value.
pub proof fn law_leaf_bytes(path: Seq<u8>, encoded: Seq<u8>, value: Seq<u8>)
    requires
        is_path(path),
        encoded.len() == 1 + path.len() / 2,
        path.len() % 2 == 0 ==> encoded[0] == 0x20,
        path.len() % 2 == 1 ==> encoded[0] == 0x30 + path[0],
        forall|i: int|
            1 <= i < encoded.len() ==> #[trigger] encoded[i] == path[2 * i - 2 + path.len() % 2] * 16
                + path[2 * i - 1 + path.len() % 2],
    ensures
        leaf_rlp(path, value) == rlp_list(rlp_string(encoded) + rlp_string(value)),
{
    lemma_hex_prefix_is(path, encoded, true);
}

/// What an extension is written as: a list of two items, its path behind the flag byte of an
/// extension and what its child is referenced through.
pub proof fn law_extension_bytes(path: Seq<u8>, encoded: Seq<u8>, item: Seq<u8>)
    requires
        is_path(path),
        encoded.len() == 1 + path.len() / 2,
        path.len() % 2 == 0 ==> encoded[0] == 0x00,
        path.len() % 2 == 1 ==> encoded[0] == 0x10 + path[0],
        forall|i: int|
            1 <= i < encoded.len() ==> #[trigger] encoded[i] == path[2 * i - 2 + path.len() % 2] * 16
                + path[2 * i - 1 + path.len() % 2],
    ensures
        extension_rlp(path, item) == rlp_list(rlp_string(encoded) + item),
{
    lemma_hex_prefix_is(path, encoded, false);
}

/// What a leaf and an extension are written as where their path is at hand in the form nodes hold it,
/// whatever that is.
pub proof fn law_encoded_node_bytes(encoded: Seq<u8>, value: Seq<u8>)
    ensures
        encoded_leaf_rlp(encoded, value) == rlp_list(rlp_string(encoded) + rlp_string(value)),
        encoded_extension_rlp(encoded, value) == rlp_list(rlp_string(encoded) + value),
{
}

/// What a branch is written as: a list of its sixteen items in order, and an empty string where a value
/// would be.
pub proof fn law_branch_bytes(items: Seq<Seq<u8>>)
    requires
        items.len() == 16,
    ensures
        branch_rlp(items) == rlp_list(
            items[0] + items[1] + items[2] + items[3] + items[4] + items[5] + items[6] + items[7]
                + items[8] + items[9] + items[10] + items[11] + items[12] + items[13] + items[14]
                + items[15] + seq![0x80u8],
        ),
{
    reveal_with_fuel(joined, 17);
    assert(Seq::<u8>::empty() + items[0] =~= items[0]);
}

/// What a node is referenced through: itself where it is shorter than its hash, and its hash as a
/// string otherwise. No node at all is an empty string, whose hash is the root of an empty trie.
pub proof fn law_reference_bytes(node_rlp: Seq<u8>)
    ensures
        node_rlp.len() < 32 ==> reference_of(node_rlp) == node_rlp,
        node_rlp.len() >= 32 ==> reference_of(node_rlp) == seq![0xa0u8] + keccak(node_rlp)@,
        node_rlp.len() >= 32 ==> reference_of(node_rlp) == rlp_string(keccak(node_rlp)@),
        empty_rlp() == seq![0x80u8],
        empty_root() == keccak(seq![0x80u8]),
{
}

/// A hash is referenced through a string of its thirty-two bytes.
pub proof fn law_digest_bytes(digest: [u8; 32])
    ensures
        digest_item(digest) == seq![0xa0u8] + digest@,
        digest_item(digest) == rlp_string(digest@),
{
}

/// A trie that holds nothing is an empty string.
pub proof fn law_trie_of_none(entries: Map<Seq<u8>, Seq<u8>>, len: nat)
    requires
        forall|key: Seq<u8>| !entries.contains_key(key),
    ensures
        trie_rlp(entries, len) == seq![0x80u8],
{
    lemma_trie_empty(entries, len);
}

/// A trie that holds one entry is a leaf with all of its key.
pub proof fn law_trie_of_one(entries: Map<Seq<u8>, Seq<u8>>, len: nat, key: Seq<u8>)
    requires
        forall|other: Seq<u8>| #[trigger] entries.contains_key(other) <==> other == key,
    ensures
        trie_rlp(entries, len) == leaf_rlp(key, entries[key]),
{
    lemma_trie_leaf(entries, len, key);
}

/// A trie that holds more has a branch at the first nibble two of its keys part on, with what they all
/// share in an extension above it, and under each nibble the trie of the keys that take it.
pub proof fn law_trie_of_many(
    entries: Map<Seq<u8>, Seq<u8>>,
    len: nat,
    path: Seq<u8>,
    left: Seq<u8>,
    right: Seq<u8>,
    under: Seq<Map<Seq<u8>, Seq<u8>>>,
    items: Seq<Seq<u8>>,
)
    requires
        forall|key: Seq<u8>| #[trigger] entries.contains_key(key) ==> key.len() == len,
        forall|key: Seq<u8>, i: int|
            #[trigger] entries.contains_key(key) && 0 <= i < path.len() ==> key[i] == #[trigger] path[i],
        entries.contains_key(left),
        entries.contains_key(right),
        path.len() < len,
        left[path.len() as int] != right[path.len() as int],
        under.len() == 16,
        forall|n: u8, key: Seq<u8>|
            n < 16 ==> {
                &&& #[trigger] under[n as int].contains_key(key) <==> entries.contains_key(
                    path + seq![n] + key,
                )
                &&& under[n as int].contains_key(key) ==> under[n as int][key] == entries[path + seq![n]
                    + key]
            },
        items.len() == 16,
        forall|n: int|
            0 <= n < 16 ==> #[trigger] items[n] == reference_of(
                trie_rlp(under[n], (len - path.len() - 1) as nat),
            ),
    ensures
        trie_rlp(entries, len) == if path.len() == 0 {
            branch_rlp(items)
        } else {
            extension_rlp(path, reference_of(branch_rlp(items)))
        },
{
    let inner = below(entries, path);
    let rest = (len - path.len()) as nat;
    assert(all_start_with(entries, path)) by {
        assert forall|key: Seq<u8>| #[trigger] entries.contains_key(key) implies starts_with(
            key,
            path,
        ) by {
            assert forall|i: int| 0 <= i < path.len() implies key.subrange(0, path.len() as int)[i]
                == path[i] by {
                assert(key[i] == path[i]);
            }
            assert(key.subrange(0, path.len() as int) =~= path);
        }
    }
    assert(parts(path, left, right));
    assert(is_split(entries, path));
    lemma_trie_split(entries, len, path);
    lemma_trie_items(inner, rest);
    assert forall|n: int| 0 <= n < 16 implies trie_items(inner, rest)[n] == #[trigger] items[n] by {
        let nibble = n as u8;
        lemma_below_below(entries, path, seq![nibble]);
        let deeper = below(inner, seq![nibble]);
        assert forall|key: Seq<u8>| under[n].contains_key(key) <==> deeper.contains_key(key) by {
            assert(under[nibble as int].contains_key(key) <==> entries.contains_key(
                path + seq![nibble] + key,
            ));
        }
        assert forall|key: Seq<u8>| #[trigger] under[n].contains_key(key) implies under[n][key]
            == deeper[key] by {
            assert(under[nibble as int].contains_key(key));
        }
        assert(under[n] =~= deeper);
        assert(trie_items(inner, rest)[nibble as int] == items[n]);
    }
    assert(trie_items(inner, rest) =~= items);
}

} // verus!
