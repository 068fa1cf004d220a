//! What a descent holds at once at least, along the arm the scratch is sized against: an extension
//! the change set leaves part way along, which pays for a split and for a branch frame.

use vstd::prelude::*;

use crate::descent::{
    absent_items, agreed_len, child_at, children_run, collapse_reaches_built, lemma_agreed_len,
    lemma_run_fails, residual_child, residual_item, residual_rlp_of,
};
use crate::encode::branch_rlp;
use crate::nibbles::path_of;
use crate::node::{
    branch_items, empty_rlp, filled_of, node_of, NodeView, DIGEST_LEN, MAX_BRANCH_RLP, MAX_ITEM,
};
use crate::stack::{DynStack, STACK_LEN};
use crate::trie::{all_start_with, below, has_removal, is_single, no_keys};

verus! {

/// Bytes a split writes of what is left of the extension: its encoding and, where it is too long to
/// sit in place, the item it is referenced through.
pub open spec fn residual_taken(path: Seq<u8>, shared: nat, child: Seq<u8>) -> nat {
    if shared + 1 < path.len() {
        let residual = residual_rlp_of(path, shared, child);
        residual.len() + if residual.len() < DIGEST_LEN {
            0
        } else {
            MAX_ITEM as nat
        }
    } else {
        0
    }
}

/// Bytes a branch frame sets aside for the child a collapse could read.
pub open spec fn set_aside(items: Seq<Seq<u8>>, changes: Map<Seq<u8>, Option<Seq<u8>>>) -> nat {
    if collapse_reaches_built(items, changes) {
        MAX_BRANCH_RLP as nat
    } else {
        0
    }
}

/// Bytes the items of the children a branch frame has rebuilt take, those of the first `count`
/// nibbles.
pub open spec fn run_taken(
    nodes: Map<[u8; 32], Seq<u8>>,
    items: Seq<Seq<u8>>,
    changes: Map<Seq<u8>, Option<Seq<u8>>>,
    len: nat,
    prebuilt: Option<(u8, Seq<u8>)>,
    count: nat,
) -> nat
    decreases count,
{
    if count == 0 {
        0
    } else {
        let before = run_taken(nodes, items, changes, len, prebuilt, (count - 1) as nat);
        if no_keys(below(changes, seq![(count - 1) as u8])) {
            before
        } else {
            before + children_run(nodes, items, changes, len, prebuilt, count)->Ok_0.0[count - 1].len()
        }
    }
}

/// Bytes an update of `node_rlp` holds at once at least, where it takes that arm.
#[verifier::opaque]
pub open spec fn floor_of(
    nodes: Map<[u8; 32], Seq<u8>>,
    node_rlp: Seq<u8>,
    changes: Map<Seq<u8>, Option<Seq<u8>>>,
    len: nat,
) -> nat
    decreases len, 3nat, 0nat,
{
    if node_rlp == empty_rlp() || is_single(changes) {
        0
    } else {
        match node_of(node_rlp) {
            Ok(NodeView::Extension { path, child }) => split_floor(
                nodes,
                path_of(path),
                child,
                changes,
                len,
            ),
            Ok(NodeView::Branch { payload }) => match branch_items(payload) {
                Ok(items) => branch_floor(nodes, items, changes, len, None),
                Err(_) => 0,
            },
            _ => 0,
        }
    }
}

/// Bytes a split of an extension holds at once at least.
#[verifier::opaque]
pub open spec fn split_floor(
    nodes: Map<[u8; 32], Seq<u8>>,
    path: Seq<u8>,
    child: Seq<u8>,
    changes: Map<Seq<u8>, Option<Seq<u8>>>,
    len: nat,
) -> nat
    decreases len, 2nat, 0nat,
{
    let shared = agreed_len(changes, path);
    if path.len() == 0 || path.len() > len || all_start_with(changes, path) {
        0
    } else {
        proof {
            lemma_agreed_len(changes, path);
        }
        residual_taken(path, shared, child) + branch_floor(
            nodes,
            absent_items().update(path[shared as int] as int, residual_item(path, shared, child)),
            below(changes, path.subrange(0, shared as int)),
            (len - shared) as nat,
            residual_child(path, shared, child),
        )
    }
}

/// Bytes a branch frame holds at once at least: what it sets aside, with what it holds while one of
/// its children runs or with its items and the branch it closes.
#[verifier::opaque]
pub open spec fn branch_floor(
    nodes: Map<[u8; 32], Seq<u8>>,
    items: Seq<Seq<u8>>,
    changes: Map<Seq<u8>, Option<Seq<u8>>>,
    len: nat,
    prebuilt: Option<(u8, Seq<u8>)>,
) -> nat
    decreases len, 1nat, 0nat,
{
    let run = run_floor(nodes, items, changes, len, prebuilt, 16);
    let closing = match children_run(nodes, items, changes, len, prebuilt, 16) {
        Ok((rebuilt, _)) => if has_removal(changes) && !(filled_of(rebuilt) is Many) {
            0
        } else {
            run_taken(nodes, items, changes, len, prebuilt, 16) + branch_rlp(rebuilt).len()
        },
        Err(_) => 0,
    };
    set_aside(items, changes) + if run < closing {
        closing
    } else {
        run
    }
}

/// Bytes a branch frame holds at once at least while the children of its first `count` nibbles run,
/// besides what it sets aside.
#[verifier::opaque]
pub open spec fn run_floor(
    nodes: Map<[u8; 32], Seq<u8>>,
    items: Seq<Seq<u8>>,
    changes: Map<Seq<u8>, Option<Seq<u8>>>,
    len: nat,
    prebuilt: Option<(u8, Seq<u8>)>,
    count: nat,
) -> nat
    decreases len, 0nat, count,
{
    if count == 0 || len == 0 {
        0
    } else {
        let before = run_floor(nodes, items, changes, len, prebuilt, (count - 1) as nat);
        let nibble = (count - 1) as u8;
        let inner = below(changes, seq![nibble]);
        match (
            children_run(nodes, items, changes, len, prebuilt, (count - 1) as nat),
            child_at(nodes, items, prebuilt, nibble),
        ) {
            (Ok(_), Ok(child_rlp)) => {
                let deeper = floor_of(nodes, child_rlp, inner, (len - 1) as nat);
                let here = run_taken(nodes, items, changes, len, prebuilt, (count - 1) as nat)
                    + deeper;
                if no_keys(inner) || deeper == 0 || here <= before {
                    before
                } else {
                    here
                }
            },
            _ => before,
        }
    }
}

/// Whether a run of requests held `bytes` at once.
pub open spec fn reached(before: DynStack, after: DynStack, bytes: nat) -> bool {
    bytes > 0 ==> *after.peak >= STACK_LEN + bytes - before.free@.len()
}

/// What an update holds is told by the kind of node it is of.
pub proof fn lemma_floor_of(
    nodes: Map<[u8; 32], Seq<u8>>,
    node_rlp: Seq<u8>,
    changes: Map<Seq<u8>, Option<Seq<u8>>>,
    len: nat,
)
    ensures
        floor_of(nodes, node_rlp, changes, len) == if node_rlp == empty_rlp() || is_single(changes) {
            0
        } else {
            match node_of(node_rlp) {
                Ok(NodeView::Extension { path, child }) => split_floor(
                    nodes,
                    path_of(path),
                    child,
                    changes,
                    len,
                ),
                Ok(NodeView::Branch { payload }) => match branch_items(payload) {
                    Ok(items) => branch_floor(nodes, items, changes, len, None),
                    Err(_) => 0,
                },
                _ => 0,
            }
        },
{
    reveal(floor_of);
    reveal(split_floor);
    reveal(branch_floor);
    reveal(run_floor);
}

/// What a split holds is what is left of the extension beside what the branch frame does.
pub proof fn lemma_split_floor(
    nodes: Map<[u8; 32], Seq<u8>>,
    path: Seq<u8>,
    child: Seq<u8>,
    changes: Map<Seq<u8>, Option<Seq<u8>>>,
    len: nat,
)
    ensures
        split_floor(nodes, path, child, changes, len) == if path.len() == 0 || path.len() > len
            || all_start_with(changes, path) {
            0
        } else {
            let shared = agreed_len(changes, path);
            residual_taken(path, shared, child) + branch_floor(
                nodes,
                absent_items().update(path[shared as int] as int, residual_item(path, shared, child)),
                below(changes, path.subrange(0, shared as int)),
                (len - shared) as nat,
                residual_child(path, shared, child),
            )
        },
{
    reveal(floor_of);
    reveal(split_floor);
    reveal(branch_floor);
    reveal(run_floor);
}

/// What a branch frame holds is told by its run and by the branch it closes.
pub proof fn lemma_branch_floor(
    nodes: Map<[u8; 32], Seq<u8>>,
    items: Seq<Seq<u8>>,
    changes: Map<Seq<u8>, Option<Seq<u8>>>,
    len: nat,
    prebuilt: Option<(u8, Seq<u8>)>,
)
    ensures
        branch_floor(nodes, items, changes, len, prebuilt) == set_aside(items, changes) + ({
            let run = run_floor(nodes, items, changes, len, prebuilt, 16);
            let closing = match children_run(nodes, items, changes, len, prebuilt, 16) {
                Ok((rebuilt, _)) => if has_removal(changes) && !(filled_of(rebuilt) is Many) {
                    0
                } else {
                    run_taken(nodes, items, changes, len, prebuilt, 16) + branch_rlp(rebuilt).len()
                },
                Err(_) => 0,
            };
            if run < closing {
                closing
            } else {
                run
            }
        }),
{
    reveal(floor_of);
    reveal(split_floor);
    reveal(branch_floor);
    reveal(run_floor);
}

/// What a branch frame holds while the child at one more nibble runs.
pub proof fn lemma_run_floor(
    nodes: Map<[u8; 32], Seq<u8>>,
    items: Seq<Seq<u8>>,
    changes: Map<Seq<u8>, Option<Seq<u8>>>,
    len: nat,
    prebuilt: Option<(u8, Seq<u8>)>,
    nibble: u8,
)
    requires
        len > 0,
    ensures
        run_floor(nodes, items, changes, len, prebuilt, 0) == 0,
        run_floor(nodes, items, changes, len, prebuilt, (nibble + 1) as nat) == ({
            let before = run_floor(nodes, items, changes, len, prebuilt, nibble as nat);
            let inner = below(changes, seq![nibble]);
            match (
                children_run(nodes, items, changes, len, prebuilt, nibble as nat),
                child_at(nodes, items, prebuilt, nibble),
            ) {
                (Ok(_), Ok(child_rlp)) => {
                    let deeper = floor_of(nodes, child_rlp, inner, (len - 1) as nat);
                    let here = run_taken(nodes, items, changes, len, prebuilt, nibble as nat)
                        + deeper;
                    if no_keys(inner) || deeper == 0 || here <= before {
                        before
                    } else {
                        here
                    }
                },
                _ => before,
            }
        }),
{
    reveal(floor_of);
    reveal(split_floor);
    reveal(branch_floor);
    reveal(run_floor);
}

/// Nibbles no change reaches leave what a branch frame holds as it was.
pub proof fn lemma_floor_skips(
    nodes: Map<[u8; 32], Seq<u8>>,
    items: Seq<Seq<u8>>,
    changes: Map<Seq<u8>, Option<Seq<u8>>>,
    len: nat,
    prebuilt: Option<(u8, Seq<u8>)>,
    from: nat,
    to: nat,
)
    requires
        from <= to <= 16,
        len > 0,
        forall|nibble: u8|
            from <= nibble < to ==> no_keys(#[trigger] below(changes, seq![nibble])),
    ensures
        run_taken(nodes, items, changes, len, prebuilt, to) == run_taken(
            nodes,
            items,
            changes,
            len,
            prebuilt,
            from,
        ),
        run_floor(nodes, items, changes, len, prebuilt, to) == run_floor(
            nodes,
            items,
            changes,
            len,
            prebuilt,
            from,
        ),
    decreases to,
{
    if from < to {
        let nibble = (to - 1) as u8;
        lemma_floor_skips(nodes, items, changes, len, prebuilt, from, (to - 1) as nat);
        lemma_run_floor(nodes, items, changes, len, prebuilt, nibble);
        assert(no_keys(below(changes, seq![nibble])));
    }
}

/// A branch frame that fails at one nibble holds no more after it.
pub proof fn lemma_floor_fails(
    nodes: Map<[u8; 32], Seq<u8>>,
    items: Seq<Seq<u8>>,
    changes: Map<Seq<u8>, Option<Seq<u8>>>,
    len: nat,
    prebuilt: Option<(u8, Seq<u8>)>,
    count: nat,
    later: nat,
)
    requires
        count <= later <= 16,
        len > 0,
        children_run(nodes, items, changes, len, prebuilt, count) is Err,
    ensures
        run_floor(nodes, items, changes, len, prebuilt, later) == run_floor(
            nodes,
            items,
            changes,
            len,
            prebuilt,
            count,
        ),
    decreases later,
{
    if count < later {
        lemma_floor_fails(nodes, items, changes, len, prebuilt, count, (later - 1) as nat);
        lemma_run_fails(nodes, items, changes, len, prebuilt, count, (later - 1) as nat);
        lemma_run_floor(nodes, items, changes, len, prebuilt, (later - 1) as u8);
    }
}

} // verus!
