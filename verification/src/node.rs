//! Decoding a trie node no further than a walk or an update needs it.
//!
//! Paths stay hex-prefix encoded and children stay whole RLP items, both borrowing the node's own
//! encoding, so re-encoding a node copies the parts it does not change.

use vstd::prelude::*;
use vstd::slice::slice_subrange;

use crate::error::PathError;
use crate::nibbles::{
    flags_leaf, flags_odd, lemma_byte_bits, path_of, HEX_PREFIX_FLAG_LEAF, HEX_PREFIX_FLAG_ODD,
};
use crate::rlp::{decode_header, decode_string, header_of, string_of, EMPTY_STRING_CODE};

verus! {

/// Length of a node reference that is a Keccak digest rather than the node's own encoding.
pub const DIGEST_LEN: usize = 32;

/// Longest item a parent references a child through, which is a digest behind its header. A node
/// short enough to sit in its parent's place stays under it, so one bound covers both forms.
pub const MAX_ITEM: usize = 1 + DIGEST_LEN;

/// Longest RLP encoding of a branch, which is sixteen items and an empty value slot behind a
/// three-byte header.
pub const MAX_BRANCH_RLP: usize = 3 + 16 * MAX_ITEM + 1;

/// Longest value a leaf carries, which is the RLP of an account holding a 9-byte nonce, a 33-byte
/// balance and two 33-byte hashes. A storage slot is a 32-byte integer and stays well under it, so
/// one bound covers both tries.
pub const MAX_LEAF_VALUE: usize = 2 + 9 + 33 + 2 * MAX_ITEM;

/// RLP of the empty node, which is also how a parent references an absent child.
pub open spec fn empty_rlp() -> Seq<u8> {
    seq![0x80u8]
}

/// What a node's encoding holds, path still hex-prefix encoded and children still whole items.
pub enum NodeView {
    Leaf { path: Seq<u8>, value: Seq<u8> },
    Extension { path: Seq<u8>, child: Seq<u8> },
    Branch { payload: Seq<u8> },
}

/// Bytes the item at the front of `buf` takes, header included.
pub open spec fn item_len(buf: Seq<u8>) -> Result<nat, PathError> {
    match header_of(buf) {
        Err(error) => Err(PathError::Rlp(error)),
        Ok(header) => Ok(header.skipped + header.payload_length),
    }
}

/// The payload of the list `node_rlp` encodes.
pub open spec fn list_payload_of(node_rlp: Seq<u8>) -> Result<Seq<u8>, PathError> {
    match header_of(node_rlp) {
        Err(error) => Err(PathError::Rlp(error)),
        Ok(header) => if !header.list {
            Err(PathError::Rlp(alloy_rlp::Error::UnexpectedString))
        } else {
            Ok(
                node_rlp.subrange(
                    header.skipped as int,
                    (header.skipped + header.payload_length) as int,
                ),
            )
        },
    }
}

/// The leaf or extension two items encode.
pub open spec fn short_node_of(first: Seq<u8>, second: Seq<u8>) -> Result<NodeView, PathError> {
    match string_of(first) {
        Err(error) => Err(PathError::Rlp(error)),
        Ok(path) => if path.len() == 0 {
            Err(PathError::MalformedPath)
        } else if !flags_leaf(path[0]) {
            if path.len() == 1 && !flags_odd(path[0]) {
                Err(PathError::MalformedPath)
            } else if second.len() > MAX_ITEM {
                Err(PathError::OversizedItem)
            } else {
                Ok(NodeView::Extension { path, child: second })
            }
        } else {
            match string_of(second) {
                Err(error) => Err(PathError::Rlp(error)),
                Ok(value) => if value.len() > MAX_LEAF_VALUE {
                    Err(PathError::OversizedValue)
                } else {
                    Ok(NodeView::Leaf { path, value })
                },
            }
        },
    }
}

/// The node whose items `payload` holds, which a third item makes a branch.
pub open spec fn node_of_payload(payload: Seq<u8>) -> Result<NodeView, PathError> {
    match item_start(payload, 1) {
        Err(error) => Err(error),
        Ok(first) => match item_start(payload, 2) {
            Err(error) => Err(error),
            Ok(second) => if second < payload.len() {
                Ok(NodeView::Branch { payload })
            } else {
                short_node_of(
                    payload.subrange(0, first as int),
                    payload.subrange(first as int, second as int),
                )
            },
        },
    }
}

/// The node `node_rlp` encodes.
#[verifier::opaque]
pub open spec fn node_of(node_rlp: Seq<u8>) -> Result<NodeView, PathError> {
    match list_payload_of(node_rlp) {
        Err(error) => Err(error),
        Ok(payload) => node_of_payload(payload),
    }
}

/// Where the item at `index` starts in a payload, which is where the one before it ends.
pub open spec fn item_start(payload: Seq<u8>, index: nat) -> Result<nat, PathError>
    decreases index,
{
    if index == 0 {
        Ok(0)
    } else {
        match item_start(payload, (index - 1) as nat) {
            Err(error) => Err(error),
            Ok(start) => match item_len(payload.skip(start as int)) {
                Err(error) => Err(error),
                Ok(len) => Ok(start + len),
            },
        }
    }
}

/// The first `count` items of a branch, each no wider than a reference.
pub open spec fn items_until(payload: Seq<u8>, count: nat) -> Result<Seq<Seq<u8>>, PathError>
    decreases count,
{
    if count == 0 {
        Ok(Seq::empty())
    } else {
        match items_until(payload, (count - 1) as nat) {
            Err(error) => Err(error),
            Ok(items) => match (item_start(payload, (count - 1) as nat), item_start(payload, count)) {
                (Ok(start), Ok(end)) => if end - start > MAX_ITEM {
                    Err(PathError::OversizedItem)
                } else {
                    Ok(items.push(payload.subrange(start as int, end as int)))
                },
                (_, Err(error)) => Err(error),
                (Err(error), _) => Err(error),
            },
        }
    }
}

/// The child items of a branch, given its payload.
pub open spec fn branch_items(payload: Seq<u8>) -> Result<Seq<Seq<u8>>, PathError> {
    match items_until(payload, 16) {
        Err(error) => Err(error),
        Ok(items) => match (item_start(payload, 16), item_start(payload, 17)) {
            (Ok(start), Ok(end)) => if payload.subrange(start as int, end as int) != empty_rlp() {
                Err(PathError::ValueInBranch)
            } else if end < payload.len() {
                Err(PathError::Rlp(alloy_rlp::Error::UnexpectedLength))
            } else {
                Ok(items)
            },
            (_, Err(error)) => Err(error),
            (Err(error), _) => Err(error),
        },
    }
}

/// Where an item ends inside the bytes it was read from.
pub proof fn lemma_item_len(buf: Seq<u8>)
    ensures
        item_len(buf) matches Ok(len) ==> 0 < len <= buf.len(),
{
}

/// Items follow one another inside the payload.
pub proof fn lemma_item_start(payload: Seq<u8>, index: nat)
    ensures
        item_start(payload, index) matches Ok(start) ==> start <= payload.len(),
        index > 0 ==> (item_start(payload, index) matches Ok(start) ==> {
            &&& item_start(payload, (index - 1) as nat) is Ok
            &&& item_start(payload, (index - 1) as nat)->Ok_0 < start
        }),
    decreases index,
{
    if index > 0 {
        lemma_item_start(payload, (index - 1) as nat);
        match item_start(payload, (index - 1) as nat) {
            Ok(start) => lemma_item_len(payload.skip(start as int)),
            Err(_) => {},
        }
    }
}

/// An item a later one is found behind was found itself.
pub proof fn lemma_item_start_before(payload: Seq<u8>, index: nat, later: nat)
    requires
        index <= later,
        item_start(payload, later) is Ok,
    ensures
        item_start(payload, index) is Ok,
        item_start(payload, index)->Ok_0 <= item_start(payload, later)->Ok_0,
    decreases later,
{
    if index < later {
        lemma_item_start(payload, later);
        lemma_item_start_before(payload, index, (later - 1) as nat);
    }
}

/// A search that failed at an item fails at every later one the same way.
pub proof fn lemma_item_start_fails(payload: Seq<u8>, index: nat, later: nat)
    requires
        index <= later,
        item_start(payload, index) is Err,
    ensures
        item_start(payload, later) == item_start(payload, index),
    decreases later,
{
    if index < later {
        lemma_item_start_fails(payload, index, (later - 1) as nat);
    }
}

/// What a node that decodes holds: a path of at least the nibbles its kind needs, and a value or a
/// child no wider than the trie has.
pub proof fn lemma_node_of(node_rlp: Seq<u8>)
    ensures
        node_of(node_rlp) matches Ok(NodeView::Leaf { path, value }) ==> path.len() > 0
            && value.len() <= MAX_LEAF_VALUE,
        node_of(node_rlp) matches Ok(NodeView::Extension { path, child }) ==> {
            &&& path.len() > 0
            &&& path_of(path).len() > 0
            &&& child.len() <= MAX_ITEM
        },
{
    reveal(node_of);
}

/// The items of a branch are sixteen, each no wider than a reference.
pub proof fn lemma_branch_items(payload: Seq<u8>)
    ensures
        branch_items(payload) matches Ok(items) ==> items.len() == 16 && forall|i: int|
            0 <= i < 16 ==> (#[trigger] items[i]).len() <= MAX_ITEM,
{
    lemma_items_until(payload, 16);
}

/// Items are as many as were asked for, and none wider than a reference.
proof fn lemma_items_until(payload: Seq<u8>, count: nat)
    ensures
        items_until(payload, count) matches Ok(items) ==> items.len() == count && forall|i: int|
            0 <= i < count ==> (#[trigger] items[i]).len() <= MAX_ITEM,
    decreases count,
{
    if count > 0 {
        lemma_items_until(payload, (count - 1) as nat);
        lemma_item_start(payload, count);
    }
}

/// RLP of the empty node, which is also how a parent references an absent child.
pub fn empty_node() -> (node_rlp: &'static [u8])
    ensures
        node_rlp@ == empty_rlp(),
{
    let node_rlp: &'static [u8] = &[0x80];
    assert(node_rlp@ =~= empty_rlp());
    node_rlp
}

/// A decoded trie node. Paths stay hex-prefix encoded and children stay whole RLP items, both
/// borrowing the node's own encoding, so a re-encoding can copy the parts it does not change.
#[derive(Clone, Copy)]
pub enum Node<'a> {
    Leaf { path: &'a [u8], value: &'a [u8] },
    Extension { path: &'a [u8], child: &'a [u8] },
    Branch(Branch<'a>),
}

impl<'a> View for Node<'a> {
    type V = NodeView;

    open spec fn view(&self) -> NodeView {
        match *self {
            Node::Leaf { path, value } => NodeView::Leaf { path: path@, value: value@ },
            Node::Extension { path, child } => NodeView::Extension { path: path@, child: child@ },
            Node::Branch(branch) => NodeView::Branch { payload: branch.payload@ },
        }
    }
}

/// A branch and the two children [`decode_node`] split off to recognize it, so a lookup resumes
/// past them rather than walking the payload from the front again.
#[derive(Clone, Copy)]
pub struct Branch<'a> {
    /// Every child item, unparsed.
    pub payload: &'a [u8],
    /// The two children a third item told apart from the path and value of a short node.
    pub head: [&'a [u8]; 2],
}

impl<'a> Branch<'a> {
    /// The head holds the first two items of the payload.
    pub open spec fn well_formed(&self) -> bool {
        &&& item_start(self.payload@, 1) == Ok::<nat, PathError>(self.head@[0]@.len())
        &&& item_start(self.payload@, 2) == Ok::<nat, PathError>(
            self.head@[0]@.len() + self.head@[1]@.len(),
        )
        &&& self.payload@.subrange(0, (self.head@[0]@.len() + self.head@[1]@.len()) as int)
            == self.head@[0]@ + self.head@[1]@
    }

    /// The range the child at `nibble` occupies in the payload.
    ///
    /// The items on either side are not inspected, since what re-encoding the branch around this
    /// one costs is settled by the length that re-encoding comes to rather than by the items it
    /// copies.
    pub fn child_span(&self, nibble: u8) -> (span: Result<(usize, usize), PathError>)
        requires
            self.well_formed(),
        ensures
            match item_start(self.payload@, (nibble + 1) as nat) {
                Ok(end) => {
                    &&& span is Ok
                    &&& item_start(self.payload@, nibble as nat) == Ok::<nat, PathError>(
                        span->Ok_0.0 as nat,
                    )
                    &&& span->Ok_0.1 == end
                    &&& span->Ok_0.0 < span->Ok_0.1 <= self.payload@.len()
                },
                Err(error) => span == Err::<(usize, usize), PathError>(error),
            },
    {
        proof {
            lemma_item_start(self.payload@, 1);
            lemma_item_start(self.payload@, 2);
            lemma_item_start(self.payload@, (nibble + 1) as nat);
        }
        let size: usize = self.payload.len();
        let first: usize = self.head[0].len();
        let second: usize = self.head[1].len();
        if nibble == 0 {
            return Ok((0, first));
        }
        if nibble == 1 {
            return Ok((first, first + second));
        }
        let mut start: usize = first + second;
        let mut rest: &'a [u8] = slice_subrange(self.payload, start, size);
        let mut index: u8 = 2;
        assert(rest@ =~= self.payload@.skip(start as int));
        while index < nibble
            invariant
                2 <= index <= nibble,
                size == self.payload@.len(),
                start <= size,
                rest@ == self.payload@.skip(start as int),
                item_start(self.payload@, index as nat) == Ok::<nat, PathError>(start as nat),
            decreases nibble - index,
        {
            let ghost before = rest@;
            proof {
                lemma_item_len(before);
            }
            match split_item(&mut rest) {
                Ok(item) => {
                    start = start + item.len();
                    assert(rest@ =~= self.payload@.skip(start as int));
                },
                Err(error) => {
                    proof {
                        lemma_item_start_fails(
                            self.payload@,
                            (index + 1) as nat,
                            (nibble + 1) as nat,
                        );
                    }
                    return Err(error);
                },
            }
            index = index + 1;
        }
        proof {
            lemma_item_len(rest@);
        }
        match split_item(&mut rest) {
            Ok(item) => Ok((start, start + item.len())),
            Err(error) => Err(error),
        }
    }

    /// The item the branch holds at `nibble`.
    pub fn child(&self, nibble: u8) -> (item: Result<&'a [u8], PathError>)
        requires
            self.well_formed(),
        ensures
            match item_start(self.payload@, (nibble + 1) as nat) {
                Ok(end) => {
                    &&& item is Ok
                    &&& item_start(self.payload@, nibble as nat) is Ok
                    &&& item->Ok_0@ == self.payload@.subrange(
                        item_start(self.payload@, nibble as nat)->Ok_0 as int,
                        end as int,
                    )
                },
                Err(error) => item == Err::<&'a [u8], PathError>(error),
            },
    {
        match self.child_span(nibble) {
            Ok((start, end)) => Ok(slice_subrange(self.payload, start, end)),
            Err(error) => Err(error),
        }
    }
}

/// Decodes a node far enough to tell which of the three it is, which for a branch is two item
/// headers. Its children stay in the payload, so an update that replaces one never pays to
/// materialize the fifteen it leaves alone.
///
/// What a short node holds is checked against the widest the canonical trie has, since re-encoding
/// one is sized against those widths and a node reached by the hash its parent commits to is a node
/// only a chain the guest is not validating could hold.
pub fn decode_node<'a>(node_rlp: &'a [u8]) -> (node: Result<Node<'a>, PathError>)
    ensures
        match node_of(node_rlp@) {
            Ok(view) => node is Ok && node->Ok_0@ == view,
            Err(error) => node == Err::<Node<'a>, PathError>(error),
        },
        node matches Ok(Node::Branch(branch)) ==> branch.well_formed(),
{
    proof {
        reveal(node_of);
    }
    let payload = match list_payload(node_rlp) {
        Ok(payload) => payload,
        Err(error) => return Err(error),
    };
    let mut rest = payload;
    proof {
        assert(payload@.skip(0) =~= payload@);
        lemma_item_len(payload@);
        reveal_with_fuel(item_start, 3);
    }
    let first = match split_item(&mut rest) {
        Ok(item) => item,
        Err(error) => return Err(error),
    };
    proof {
        assert(rest@ =~= payload@.skip(first@.len() as int));
        lemma_item_len(rest@);
    }
    let second = match split_item(&mut rest) {
        Ok(item) => item,
        Err(error) => return Err(error),
    };
    if rest.len() != 0 {
        assert(payload@.subrange(0, (first@.len() + second@.len()) as int) =~= first@ + second@);
        return Ok(Node::Branch(Branch { payload, head: [first, second] }));
    }
    proof {
        assert(first@ =~= payload@.subrange(0, first@.len() as int));
        assert(second@ =~= payload@.subrange(
            first@.len() as int,
            first@.len() + second@.len() as int,
        ));
    }
    let path = match decode_string(first) {
        Ok(path) => path,
        Err(error) => return Err(PathError::Rlp(error)),
    };
    if path.len() == 0 {
        return Err(PathError::MalformedPath);
    }
    let flags: u8 = path[0];
    proof {
        lemma_byte_bits(flags);
    }
    if flags & HEX_PREFIX_FLAG_LEAF == 0 {
        // An extension holding no nibble at all would leave a descent at the depth it arrived on,
        // which the trie has no such node for and which the scratch is not sized for.
        if path.len() == 1 && flags & HEX_PREFIX_FLAG_ODD == 0 {
            return Err(PathError::MalformedPath);
        }
        if second.len() > MAX_ITEM {
            return Err(PathError::OversizedItem);
        }
        return Ok(Node::Extension { path, child: second });
    }
    let value = match decode_string(second) {
        Ok(value) => value,
        Err(error) => return Err(PathError::Rlp(error)),
    };
    if value.len() > MAX_LEAF_VALUE {
        return Err(PathError::OversizedValue);
    }
    Ok(Node::Leaf { path, value })
}

/// What sixteen items hold.
pub open spec fn items_view(items: [&[u8]; 16]) -> Seq<Seq<u8>> {
    Seq::new(16, |i: int| items@[i]@)
}

/// What items hold is what each of them does, in its place.
pub proof fn law_items_in_place(items: [&[u8]; 16])
    ensures
        items_view(items).len() == 16,
        forall|i: int| 0 <= i < 16 ==> #[trigger] items_view(items)[i] == items@[i]@,
{
}

/// The child items of a branch, given its payload.
pub fn branch_children<'a>(payload: &'a [u8]) -> (children: Result<[&'a [u8]; 16], PathError>)
    ensures
        match branch_items(payload@) {
            Ok(items) => children is Ok && items_view(children->Ok_0) == items,
            Err(error) => children == Err::<[&'a [u8]; 16], PathError>(error),
        },
{
    let mut rest: &'a [u8] = payload;
    let mut children: [&'a [u8]; 16] = [empty_node(); 16];
    let mut index: usize = 0;
    let ghost mut start: nat = 0;
    assert(payload@.skip(0) =~= payload@);
    while index < 16
        invariant
            index <= 16,
            start <= payload@.len(),
            rest@ == payload@.skip(start as int),
            item_start(payload@, index as nat) == Ok::<nat, PathError>(start),
            items_until(payload@, index as nat) is Ok,
            items_until(payload@, index as nat)->Ok_0.len() == index,
            forall|i: int|
                0 <= i < index ==> (#[trigger] children@[i])@ == items_until(
                    payload@,
                    index as nat,
                )->Ok_0[i],
        decreases 16 - index,
    {
        proof {
            lemma_item_len(rest@);
        }
        match split_item(&mut rest) {
            Ok(child) => {
                if child.len() > MAX_ITEM {
                    proof {
                        lemma_items_until_fails(payload@, (index + 1) as nat, 16);
                    }
                    return Err(PathError::OversizedItem);
                }
                proof {
                    assert(child@ =~= payload@.subrange(
                        start as int,
                        (start + child@.len()) as int,
                    ));
                    start = start + child@.len();
                    assert(rest@ =~= payload@.skip(start as int));
                }
                children[index] = child;
            },
            Err(error) => {
                proof {
                    lemma_items_until_fails(payload@, (index + 1) as nat, 16);
                }
                return Err(error);
            },
        }
        index = index + 1;
    }
    proof {
        lemma_item_len(rest@);
        assert(items_view(children) =~= items_until(payload@, 16)->Ok_0);
    }
    match split_item(&mut rest) {
        Ok(value) => {
            assert(value@ =~= payload@.subrange(start as int, (start + value@.len()) as int));
            if !is_empty_node(value) {
                return Err(PathError::ValueInBranch);
            }
            if rest.len() != 0 {
                return Err(PathError::Rlp(alloy_rlp::Error::UnexpectedLength));
            }
            Ok(children)
        },
        Err(error) => Err(error),
    }
}

/// Items that could not be split off leave no longer run of them to split off either.
pub proof fn lemma_items_until_fails(payload: Seq<u8>, count: nat, later: nat)
    requires
        count <= later,
        items_until(payload, count) is Err,
    ensures
        items_until(payload, later) == items_until(payload, count),
    decreases later,
{
    if count < later {
        lemma_items_until_fails(payload, count, (later - 1) as nat);
    }
}

/// How many children a branch still holds, which only a deletion can bring below two.
pub enum Filled {
    Empty,
    One(u8),
    Many,
}

/// Which of the items a branch holds are filled.
pub open spec fn filled_of(items: Seq<Seq<u8>>) -> Filled {
    if forall|i: int| 0 <= i < 16 ==> #[trigger] items[i] == empty_rlp() {
        Filled::Empty
    } else if exists|n: u8| only_filled(items, n) {
        Filled::One(choose|n: u8| only_filled(items, n))
    } else {
        Filled::Many
    }
}

/// Whether `nibble` is the one item that is filled.
pub open spec fn only_filled(items: Seq<Seq<u8>>, nibble: u8) -> bool {
    &&& nibble < 16
    &&& items[nibble as int] != empty_rlp()
    &&& forall|i: int| 0 <= i < 16 && i != nibble ==> #[trigger] items[i] == empty_rlp()
}

/// A branch still holds no child, one or many as none, one or more of its items are other than an
/// empty string.
pub proof fn law_filled_children(items: Seq<Seq<u8>>)
    ensures
        filled_of(items) is Empty <==> forall|i: int|
            0 <= i < 16 ==> #[trigger] items[i] == seq![0x80u8],
        filled_of(items) matches Filled::One(nibble) ==> nibble < 16 && items[nibble as int] != seq![
            0x80u8,
        ] && forall|i: int|
            0 <= i < 16 && i != nibble ==> #[trigger] items[i] == seq![0x80u8],
        filled_of(items) is Many <==> exists|i: int, j: int|
            0 <= i < j < 16 && #[trigger] items[i] != seq![0x80u8] && #[trigger] items[j] != seq![
                0x80u8,
            ],
{
    if filled_of(items) is Many {
        let i = choose|i: int| 0 <= i < 16 && #[trigger] items[i] != empty_rlp();
        assert(!only_filled(items, i as u8));
        let j = choose|j: int| 0 <= j < 16 && j != i && #[trigger] items[j] != empty_rlp();
        assert(items[i] != seq![0x80u8] && items[j] != seq![0x80u8]);
        assert(i < j || j < i);
    }
    if exists|i: int, j: int|
        0 <= i < j < 16 && #[trigger] items[i] != seq![0x80u8] && #[trigger] items[j] != seq![0x80u8] {
        let (i, j) = choose|i: int, j: int|
            0 <= i < j < 16 && #[trigger] items[i] != seq![0x80u8] && #[trigger] items[j] != seq![
                0x80u8,
            ];
        assert(items[i] != empty_rlp());
        assert forall|n: u8| !only_filled(items, n) by {
            assert(items[i] != empty_rlp() && items[j] != empty_rlp());
        }
    }
}

/// Which children of a branch are still filled.
pub fn filled_children(children: &[&[u8]; 16]) -> (filled: Filled)
    ensures
        filled == filled_of(items_view(*children)),
{
    let ghost items = items_view(*children);
    let mut found: Option<u8> = None;
    let mut nibble: u8 = 0;
    while nibble < 16
        invariant
            nibble <= 16,
            items == items_view(*children),
            found is None ==> forall|i: int| 0 <= i < nibble ==> #[trigger] items[i] == empty_rlp(),
            found matches Some(n) ==> {
                &&& n < nibble
                &&& items[n as int] != empty_rlp()
                &&& forall|i: int| 0 <= i < nibble && i != n ==> #[trigger] items[i] == empty_rlp()
            },
        decreases 16 - nibble,
    {
        assert(items[nibble as int] == children@[nibble as int]@);
        if !is_empty_node(children[nibble as usize]) {
            match found {
                None => {
                    found = Some(nibble);
                },
                Some(first) => {
                    proof {
                        assert(items[first as int] != empty_rlp());
                        assert(items[nibble as int] != empty_rlp());
                        assert forall|n: u8| !only_filled(items, n) by {
                            if n == first {
                                assert(items[nibble as int] != empty_rlp());
                            }
                        }
                    }
                    return Filled::Many;
                },
            }
        }
        nibble = nibble + 1;
    }
    match found {
        None => Filled::Empty,
        Some(n) => {
            proof {
                assert(only_filled(items, n));
                let other = choose|n: u8| only_filled(items, n);
                assert(only_filled(items, other));
                assert(items[n as int] != empty_rlp());
            }
            Filled::One(n)
        },
    }
}

/// Whether an item is the RLP of an empty node, which is how a parent references an absent child.
pub fn is_empty_node(item: &[u8]) -> (empty: bool)
    ensures
        empty == (item@ == empty_rlp()),
{
    let empty = item.len() == 1 && item[0] == EMPTY_STRING_CODE;
    assert(empty ==> item@ =~= empty_rlp());
    empty
}

/// Splits `len` bytes off the front of `buf`, leaving `buf` on what follows them.
pub fn split_payload<'a>(buf: &mut &'a [u8], len: usize) -> (payload: Result<&'a [u8], PathError>)
    ensures
        old(buf)@.len() < len ==> {
            &&& payload == Err::<&'a [u8], PathError>(
                PathError::Rlp(alloy_rlp::Error::InputTooShort),
            )
            &&& final(buf)@ == old(buf)@
        },
        old(buf)@.len() >= len ==> {
            &&& payload is Ok
            &&& payload->Ok_0@ == old(buf)@.subrange(0, len as int)
            &&& final(buf)@ == old(buf)@.skip(len as int)
        },
{
    if buf.len() < len {
        return Err(PathError::Rlp(alloy_rlp::Error::InputTooShort));
    }
    let payload = slice_subrange(*buf, 0, len);
    let rest = slice_subrange(*buf, len, buf.len());
    *buf = rest;
    Ok(payload)
}

/// Splits the RLP item at the front of `buf` off whole, header included.
///
/// Almost every item a node holds is an empty child or a digest, both of which their first byte
/// tells apart and gives the length of, so the walk over a branch reads a byte rather than decoding
/// a header sixteen times over.
pub fn split_item<'a>(buf: &mut &'a [u8]) -> (item: Result<&'a [u8], PathError>)
    ensures
        match item_len(old(buf)@) {
            Ok(len) => {
                &&& item is Ok
                &&& item->Ok_0@ == old(buf)@.subrange(0, len as int)
                &&& final(buf)@ == old(buf)@.skip(len as int)
            },
            Err(error) => {
                &&& item == Err::<&'a [u8], PathError>(error)
                &&& final(buf)@ == old(buf)@
            },
        },
{
    if buf.len() > 0 && buf[0] == EMPTY_STRING_CODE {
        return split_payload(buf, 1);
    }
    if buf.len() > 0 && buf[0] == 0xa0 {
        return split_payload(buf, 1 + DIGEST_LEN);
    }
    match decode_header(*buf) {
        Ok((_, payload_length, rest)) => {
            let len: usize = buf.len() - rest.len() + payload_length;
            split_payload(buf, len)
        },
        Err(error) => Err(PathError::Rlp(error)),
    }
}

/// The payload of the list `node_rlp` encodes.
pub fn list_payload<'a>(node_rlp: &'a [u8]) -> (payload: Result<&'a [u8], PathError>)
    ensures
        match list_payload_of(node_rlp@) {
            Ok(bytes) => payload is Ok && payload->Ok_0@ == bytes,
            Err(error) => payload == Err::<&'a [u8], PathError>(error),
        },
{
    match decode_header(node_rlp) {
        Ok((list, payload_length, rest)) => {
            if !list {
                return Err(PathError::Rlp(alloy_rlp::Error::UnexpectedString));
            }
            let mut buf = rest;
            let payload = split_payload(&mut buf, payload_length);
            proof {
                let header = header_of(node_rlp@)->Ok_0;
                assert(payload->Ok_0@ =~= node_rlp@.subrange(
                    header.skipped as int,
                    (header.skipped + header.payload_length) as int,
                ));
            }
            payload
        },
        Err(error) => Err(PathError::Rlp(error)),
    }
}

} // verus!
