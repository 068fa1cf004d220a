//! The pieces a descent is made of: paths, nodes, encodings, and what the guest decides.

use alloy_primitives::keccak256;
use stateless_validator_reth::encode::{
    encode_branch, encode_digest, encode_extension, encode_extension_encoded, encode_leaf,
    encode_leaf_encoded, encode_leaf_from_key, reference, splice_branch, Carried,
    MAX_EXTENSION_RLP, MAX_GAPPED_BRANCH_RLP, MAX_LEAF_RLP,
};
use stateless_validator_reth::error::PathError;
use stateless_validator_reth::guest::{guest_output, GuestOutput, Progress, Stage};
use stateless_validator_reth::keccak::same_digest;
use stateless_validator_reth::nibbles::{
    common_prefix_len, hex_prefix_decode, hex_prefix_encode, hex_prefix_from_key, key_nibbles,
    merge_paths, nibble_at, path_from,
};
use stateless_validator_reth::node::{
    branch_children, decode_node, filled_children, is_empty_node, list_payload, split_item,
    split_payload, Filled, Node, MAX_BRANCH_RLP, MAX_ITEM, MAX_LEAF_VALUE,
};
use stateless_validator_reth::rlp::{EMPTY_LIST_CODE, EMPTY_STRING_CODE};
use stateless_validator_reth::stack::{length_of_length, list_rlp, path_rlp, DynStack, STACK_LEN};
use stateless_validator_reth::account::TrieAccount;
use stateless_validator_reth::values::{encode_value, ChangedValues};

#[test]
fn the_widths_are_the_ones_the_trie_has() {
    assert_eq!((MAX_ITEM, MAX_BRANCH_RLP, MAX_LEAF_VALUE), (33, 532, 110));
    let mut scratch = vec![0; STACK_LEN];
    let mut peak = 0;
    let mut stack = DynStack::new(&mut scratch, &mut peak);
    assert_eq!(encode_leaf(&[1; 64], &[7; 110], &mut stack).len(), MAX_LEAF_RLP);
    assert_eq!(encode_extension(&[1; 64], &[7; 33], &mut stack).len(), MAX_EXTENSION_RLP);
    let (full, absent): (&[u8], &[u8]) = (&[7; 33], &[0x80]);
    let mut items = [full; 16];
    items[5] = absent;
    assert_eq!(encode_branch(&items, &mut stack).len(), MAX_GAPPED_BRANCH_RLP);
    let widest = alloy_trie::TrieAccount::new(
        u64::MAX,
        alloy_primitives::U256::MAX,
        alloy_primitives::B256::repeat_byte(1),
        alloy_primitives::B256::repeat_byte(2),
    );
    assert_eq!(alloy_rlp::encode(widest).len(), MAX_LEAF_VALUE);
}

#[test]
fn the_codes_and_header_lengths_are_those_of_rlp() {
    assert_eq!(EMPTY_STRING_CODE, alloy_rlp::EMPTY_STRING_CODE);
    assert_eq!(EMPTY_LIST_CODE, alloy_rlp::EMPTY_LIST_CODE);
    for payload in (0..70000).chain([1 << 24, usize::MAX]) {
        assert_eq!(length_of_length(payload), alloy_rlp::length_of_length(payload));
    }
    assert_eq!(length_of_length(65536), 4);
    assert_eq!(list_rlp(65536), 65540);
    assert_eq!((path_rlp(1), path_rlp(2), path_rlp(64)), (1, 3, 34));
}

#[test]
fn a_path_is_read_back_from_its_encoding() {
    for len in 0..=64usize {
        let path = (0..len).map(|i| (i * 7 % 16) as u8).collect::<Vec<_>>();
        for is_leaf in [false, true] {
            let mut encoded = [0; 33];
            let encoded = hex_prefix_encode(&path, is_leaf, &mut encoded);
            assert_eq!(encoded.len(), 1 + len / 2);
            assert_eq!(encoded[0] & 0x20 != 0, is_leaf);
            let mut decoded = [0; 64];
            assert_eq!(hex_prefix_decode(encoded, &mut decoded).unwrap(), path.as_slice());
        }
    }
    let mut out = [0; 33];
    assert_eq!(hex_prefix_encode(&[1, 2, 3], true, &mut out), &[0x31, 0x23]);
    assert_eq!(hex_prefix_encode(&[1, 2], false, &mut out), &[0x00, 0x12]);
}

#[test]
fn a_path_longer_than_a_key_is_malformed() {
    let mut out = [0; 64];
    assert!(matches!(hex_prefix_decode(&[], &mut out), Err(PathError::MalformedPath)));
    assert!(matches!(hex_prefix_decode(&[0; 34], &mut out), Err(PathError::MalformedPath)));
    assert!(matches!(hex_prefix_decode(&[0x10; 33], &mut out), Err(PathError::MalformedPath)));
    assert!(hex_prefix_decode(&[0; 33], &mut out).is_ok());
    assert!(matches!(merge_paths(&[1; 33], &[2; 32], &mut out), Err(PathError::MalformedPath)));
    assert_eq!(merge_paths(&[1, 2], &[3], &mut out).unwrap(), &[1, 2, 3]);
    // A refusal leaves the buffer alone, and a path the bytes behind it.
    let mut out = [9; 64];
    assert!(merge_paths(&[1; 33], &[2; 32], &mut out).is_err());
    assert!(hex_prefix_decode(&[0; 34], &mut out).is_err());
    assert_eq!(out, [9; 64]);
    assert_eq!(hex_prefix_decode(&[0x11, 0x23], &mut out).unwrap(), &[1, 2, 3]);
    assert_eq!(out[..4], [1, 2, 3, 9]);
    assert!(merge_paths(&[4], &[5], &mut out).is_ok());
    assert_eq!(out[..4], [4, 5, 3, 9]);
    let mut encoded = [9; 33];
    assert_eq!(hex_prefix_encode(&[1, 2, 3], true, &mut encoded).len(), 2);
    assert_eq!(encoded[..3], [0x31, 0x23, 9]);
    let mut encoded = [9; 33];
    assert_eq!(hex_prefix_from_key(&[0x12; 32], 61, 64, false, &mut encoded).len(), 2);
    assert_eq!(encoded[..3], [0x12, 0x12, 9]);
}

#[test]
fn a_key_is_compared_where_it_lies() {
    let mut key = [0; 32];
    key[0] = 0x12;
    key[1] = 0x34;
    assert_eq!(&key_nibbles(&key)[..4], &[1, 2, 3, 4]);
    assert_eq!((nibble_at(&key, 0), nibble_at(&key, 3)), (1, 4));
    // Even from a whole byte, odd from one, even part way into one, and odd part way into one.
    assert_eq!(path_from(&key, 0, &[0x00, 0x12]), Some(2));
    assert_eq!(path_from(&key, 0, &[0x11, 0x23]), Some(3));
    assert_eq!(path_from(&key, 1, &[0x00, 0x23]), Some(2));
    assert_eq!(path_from(&key, 1, &[0x12, 0x34]), Some(3));
    assert_eq!(path_from(&key, 1, &[0x13, 0x34]), None);
    assert_eq!(path_from(&key, 0, &[0x00, 0x13]), None);
    assert_eq!(path_from(&key, 63, &[0x00, 0x00]), None);
    assert_eq!(path_from(&key, 64, &[0x20]), Some(0));
    assert_eq!(path_from(&key, 0, &[]), None);
    assert_eq!(common_prefix_len(&[1, 2, 3], &[1, 2, 4, 5]), 2);
    assert_eq!(common_prefix_len(&[], &[1]), 0);
    assert!(same_digest(&key, &key));
    assert!(!same_digest(&key, &[0; 32]));
}

#[test]
fn items_are_split_off_whole() {
    let bytes = [0x80, 0x05, 0x82, 0x12, 0x34, 0xc1, 0x80, 0xa0];
    let mut rest: &[u8] = &bytes;
    assert_eq!(split_item(&mut rest).unwrap(), &[0x80]);
    assert_eq!(split_item(&mut rest).unwrap(), &[0x05]);
    assert_eq!(split_item(&mut rest).unwrap(), &[0x82, 0x12, 0x34]);
    assert_eq!(split_item(&mut rest).unwrap(), &[0xc1, 0x80]);
    // A digest cut short.
    assert!(matches!(
        split_item(&mut rest),
        Err(PathError::Rlp(alloy_rlp::Error::InputTooShort))
    ));
    let mut rest: &[u8] = &[1, 2, 3];
    assert_eq!(split_payload(&mut rest, 2).unwrap(), &[1, 2]);
    assert_eq!(rest, &[3]);
    assert!(split_payload(&mut rest, 2).is_err());
    assert_eq!(list_payload(&[0xc2, 0x01, 0x02]).unwrap(), &[1, 2]);
    assert!(matches!(
        list_payload(&[0x81, 0x80]),
        Err(PathError::Rlp(alloy_rlp::Error::UnexpectedString))
    ));
    assert!(matches!(
        list_payload(&[0xf8, 0x01]),
        Err(PathError::Rlp(alloy_rlp::Error::NonCanonicalSize))
    ));
    assert!(is_empty_node(&[0x80]) && !is_empty_node(&[0x81]) && !is_empty_node(&[]));
}

#[test]
fn a_node_is_told_by_its_items() {
    match decode_node(&[0xc4, 0x82, 0x20, 0x34, 0x05]).unwrap() {
        Node::Leaf { path, value } => assert_eq!((path, value), (&[0x20, 0x34][..], &[0x05][..])),
        _ => panic!("a leaf"),
    }
    match decode_node(&[0xc4, 0x13, 0xc2, 0x20, 0x05]).unwrap() {
        Node::Extension { path, child } => {
            assert_eq!((path, child), (&[0x13][..], &[0xc2, 0x20, 0x05][..]))
        }
        _ => panic!("an extension"),
    }
    let mut branch = vec![0xd3, 0x80, 0x80, 0x80, 0xc2, 0x20, 0x05];
    branch.extend([0x80; 13]);
    match decode_node(&branch).unwrap() {
        Node::Branch(branch) => {
            assert_eq!(branch.child_span(3).unwrap(), (3, 6));
            assert_eq!(branch.child(3).unwrap(), &[0xc2, 0x20, 0x05]);
            assert_eq!(branch.child(0).unwrap(), &[0x80]);
            assert_eq!(branch.child(1).unwrap(), &[0x80]);
            assert_eq!(branch.child(15).unwrap(), &[0x80]);
            let children = branch_children(branch.payload).unwrap();
            assert_eq!(children[3], &[0xc2, 0x20, 0x05]);
            assert!(matches!(filled_children(&children), Filled::One(3)));
        }
        _ => panic!("a branch"),
    }
    let empty: &[u8] = &[0x80];
    assert!(matches!(filled_children(&[empty; 16]), Filled::Empty));
    let filled: &[u8] = &[0xc0];
    assert!(matches!(filled_children(&[filled; 16]), Filled::Many));
    assert!(matches!(decode_node(&[0xc2, 0x80, 0x05]), Err(PathError::MalformedPath)));
}

#[test]
fn nodes_are_encoded_as_the_trie_writes_them() {
    let mut scratch = vec![0; STACK_LEN];
    let mut peak = 0;
    let mut stack = DynStack::new(&mut scratch, &mut peak);
    assert_eq!(encode_leaf(&[3, 4], &[0x05], &mut stack), &[0xc4, 0x82, 0x20, 0x34, 0x05]);
    assert_eq!(encode_leaf_encoded(&[0x20, 0x34], &[0x05], &mut stack), &[0xc4, 0x82, 0x20, 0x34, 0x05]);
    let mut key = [0; 32];
    key[31] = 0x34;
    assert_eq!(
        encode_leaf_from_key(&key, 62, &[0x05], &mut stack),
        &[0xc4, 0x82, 0x20, 0x34, 0x05]
    );
    assert_eq!(
        encode_extension(&[3], &[0xc2, 0x20, 0x05], &mut stack),
        &[0xc4, 0x13, 0xc2, 0x20, 0x05]
    );
    assert_eq!(
        encode_extension_encoded(&[0x13], &[0xc2, 0x20, 0x05], &mut stack),
        &[0xc4, 0x13, 0xc2, 0x20, 0x05]
    );
    // A value of more than fifty-five bytes takes a longer header, and so does the list.
    let wide = encode_leaf(&[], &[7; 60], &mut stack);
    assert_eq!(&wide[..5], &[0xf8, 63, 0x20, 0xb8, 60]);
    assert_eq!(wide.len(), 65);
    // And more than two hundred and fifty-five a longer one still.
    let wider = encode_leaf(&[], &[7; 300], &mut stack);
    assert_eq!(&wider[..7], &[0xf9, 1, 48, 0x20, 0xb9, 1, 44]);
    let full: &[u8] = &[0x11; 33];
    let branch = encode_branch(&[full; 16], &mut stack);
    assert_eq!(branch.len(), MAX_BRANCH_RLP);
    assert_eq!((&branch[..3], branch[531]), (&[0xf9, 0x02, 0x11][..], 0x80));
}

#[test]
fn a_node_is_referenced_in_place_or_by_hash() {
    let mut scratch = vec![0; STACK_LEN];
    let mut peak = 0;
    let mut stack = DynStack::new(&mut scratch, &mut peak);
    let short = [0xc2, 0x20, 0x05];
    let long = [0x55; 40];
    let mut hashed = vec![0xa0];
    hashed.extend(keccak256(long).0);
    assert_eq!(reference(&short, &mut stack), &short);
    assert_eq!(reference(&long, &mut stack), hashed.as_slice());
    assert_eq!(Carried::of(&short).write(&mut stack), &short);
    assert_eq!(Carried::of(&long).write(&mut stack), hashed.as_slice());
    assert_eq!(encode_digest([9; 32], &mut stack)[..2], [0xa0, 9]);
}

#[test]
fn a_spliced_branch_keeps_its_other_children() {
    let mut scratch = vec![0; STACK_LEN];
    let mut peak = 0;
    let mut stack = DynStack::new(&mut scratch, &mut peak);
    let spliced = splice_branch(&[0x80; 17], 2, 3, &[0xc2, 0x20, 0x05], &mut stack).unwrap();
    let mut expected = vec![0xd3, 0x80, 0x80, 0xc2, 0x20, 0x05];
    expected.extend([0x80; 14]);
    assert_eq!(spliced, expected.as_slice());
    // The widest branch there is, and one byte past it.
    assert_eq!(
        splice_branch(&[0x80; 497], 0, 1, &[0x11; 33], &mut stack).unwrap().len(),
        MAX_BRANCH_RLP
    );
    let left = stack.free.len();
    assert!(matches!(
        splice_branch(&[0x80; 498], 0, 1, &[0x11; 33], &mut stack),
        Err(PathError::OversizedNode)
    ));
    assert_eq!(stack.free.len(), left);
}

#[test]
fn values_are_encoded_as_the_trie_records_them() {
    let mut scratch = vec![0; STACK_LEN];
    let mut peak = 0;
    let mut stack = DynStack::new(&mut scratch, &mut peak);
    let mut balance = [0; 32];
    balance[30] = 0x01;
    let account = TrieAccount {
        nonce: 200,
        balance,
        storage_root: [3; 32],
        code_hash: [4; 32],
    };
    let mut expected = vec![0xf8, 71, 0x81, 200, 0x82, 0x01, 0x00, 0xa0];
    expected.extend([3; 32]);
    expected.push(0xa0);
    expected.extend([4; 32]);
    assert_eq!(encode_value(&account, &mut stack), expected.as_slice());
    assert_eq!([account].encode(0, &mut stack), expected.as_slice());
    assert_eq!(encode_value(&[0u8; 32], &mut stack), &[0x80]);
    assert_eq!([([9; 32], balance)].encode(0, &mut stack), &[0x82, 0x01, 0x00]);
    let raw: [&[u8]; 1] = [&[1, 2, 3]];
    assert_eq!(raw.encode(0, &mut stack), &[1, 2, 3]);
}

#[test]
fn a_payload_is_accepted_where_every_stage_passes() {
    let stages = [Stage::ValidateChainConfig, Stage::ConvertInput, Stage::RunValidation];
    for failing in 0..=3 {
        let mut stage = Stage::ValidateChainConfig;
        let mut ran = Vec::new();
        let accepted = loop {
            let passed = Some(&stage) != stages.get(failing);
            ran.push(stage);
            match stage.after(passed) {
                Progress::Next(next) => stage = next,
                Progress::Accepted => break true,
                Progress::Rejected => break false,
            }
        };
        assert_eq!(accepted, failing == 3);
        assert_eq!(ran, stages[..(failing + 1).min(3)]);
    }
    assert_eq!(Stage::ValidateChainConfig.failure_notice(), None);
    assert_eq!(Stage::ConvertInput.failure_notice(), Some("Input conversion failed: "));
    assert_eq!(Stage::RunValidation.failure_notice(), Some("Validation failed: "));
}

#[test]
fn the_guest_reports_what_it_read() {
    assert!(matches!(guest_output::<u8>(None, true), GuestOutput::Unreadable));
    match guest_output(Some(([1; 32], 7u8)), false) {
        GuestOutput::Validated {
            new_payload_request_root,
            successful_validation,
            chain_config,
        } => {
            assert_eq!(new_payload_request_root, [1; 32]);
            assert!(!successful_validation);
            assert_eq!(chain_config, 7);
        }
        GuestOutput::Unreadable => panic!("the input was read"),
    }
}
