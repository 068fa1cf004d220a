//! The scratch a descent builds in.

use stateless_validator_reth::stack::{
    frame_carry, length_of_length, list_rlp, path_rlp, residual_rlp, take_peak, DynStack,
    BRANCH_CARRY, FRAME_TAIL, STACK_LEN,
};

/// The figures the buffer is sized from, pinned so a change to the derivation has to be
/// deliberate. Each part is checked and not only the total, since two compensating errors would
/// leave the total alone. A frame narrows with depth because the extension it re-encodes covers
/// only what a key leaves below it.
#[test]
fn the_scratch_is_the_size_the_bound_derives() {
    assert_eq!((BRANCH_CARRY, FRAME_TAIL), (1027, 1528));
    assert_eq!((frame_carry(0), frame_carry(62)), (1128, 1095));
    assert_eq!(STACK_LEN, 71589);
}

#[test]
fn the_buffer_is_every_frame_over_the_last() {
    let frames: usize = (0..63).map(frame_carry).sum();
    assert_eq!(frames + FRAME_TAIL, STACK_LEN);
}

#[test]
fn allocations_are_disjoint_and_writable() {
    let mut buffer = [0; 64];
    let mut peak = 0;
    let mut stack = DynStack::new(&mut buffer, &mut peak);
    let first = stack.allocate(8);
    first.fill(1);
    let second = stack.allocate(8);
    second.fill(2);
    assert_eq!(first, &[1; 8]);
    assert_eq!(second, &[2; 8]);
    assert_eq!(take_peak(&mut peak), STACK_LEN - 48);
}

#[test]
fn taking_the_peak_leaves_it_at_zero() {
    let mut peak = 7;
    assert_eq!(take_peak(&mut peak), 7);
    assert_eq!(take_peak(&mut peak), 0);
}

#[test]
fn alloc_copy_returns_the_source_bytes() {
    let mut buffer = [0; 64];
    let mut peak = 0;
    assert_eq!(
        DynStack::new(&mut buffer, &mut peak).alloc_copy(&[7, 8, 9]),
        &[7, 8, 9]
    );
}

/// What a frame lends comes back when the loan ends, so the same addresses serve every child in
/// turn without the frame having to ask for them back.
#[test]
fn a_loan_is_returned_when_it_ends() {
    let mut buffer = [0; 64];
    let mut peak = 0;
    let mut stack = DynStack::new(&mut buffer, &mut peak);
    let first = stack.lend().allocate(8).as_ptr();
    assert_eq!(stack.lend().allocate(8).as_ptr(), first);
    // What the frame takes for itself is not part of any loan, so the next loan starts past it.
    stack.allocate(8);
    assert_ne!(stack.lend().allocate(8).as_ptr(), first);
}

/// A request past the buffer is served rather than refused, so a descent that outgrew the bound
/// would cost memory rather than cost a block its validation, and the buffer is left whole for
/// what follows.
#[test]
fn a_request_past_the_buffer_is_served_from_the_heap() {
    let mut buffer = [0; 64];
    let mut peak = 0;
    let mut stack = DynStack::new(&mut buffer, &mut peak);
    assert_eq!(stack.allocate(65), &[0; 65]);
    assert_eq!(stack.allocate(64).len(), 64);
}

/// What the heap serves is counted like any other request, so a descent that outgrew the buffer
/// shows as a peak above it.
#[test]
fn what_the_heap_serves_is_counted() {
    let mut buffer = vec![0; STACK_LEN];
    let mut peak = 0;
    let mut stack = DynStack::new(&mut buffer, &mut peak);
    stack.allocate(STACK_LEN + 3);
    assert_eq!(take_peak(&mut peak), STACK_LEN + 3);
}

/// The lengths the derivation counts are the ones the encoder writes.
#[test]
fn the_lengths_counted_are_the_ones_written() {
    for payload in [0, 1, 55, 56, 255, 256, 532, 65535, 65536, 1 << 24] {
        assert_eq!(length_of_length(payload), alloy_rlp::length_of_length(payload));
        assert_eq!(list_rlp(payload), alloy_rlp::length_of_length(payload) + payload);
    }
    assert_eq!((path_rlp(0), path_rlp(1), path_rlp(2), path_rlp(64)), (1, 1, 3, 34));
    assert_eq!((residual_rlp(0), residual_rlp(62)), (68, 35));
}

/// What is handed out is the front of the buffer, so what is written to it ends up there.
#[test]
fn what_is_written_ends_up_in_the_buffer() {
    let mut buffer = [0; 16];
    let mut peak = 0;
    let mut stack = DynStack::new(&mut buffer, &mut peak);
    stack.allocate(4).fill(1);
    stack.lend().allocate(6).fill(3);
    stack.alloc_copy(&[2; 4]);
    // The heap serves this one, and the buffer is none the wiser.
    stack.allocate(9).fill(9);
    assert_eq!(stack.free.len(), 8);
    assert_eq!(buffer, [1, 1, 1, 1, 2, 2, 2, 2, 3, 3, 0, 0, 0, 0, 0, 0]);
}
