//! [`DynStack`], the scratch the nodes built while recomputing the root live in.
//!
//! An allocation splits the buffer and leaves the stack on what follows it, so what a frame lends a
//! child comes back when that loan ends rather than when a caller remembers to rewind. A node the
//! child built therefore cannot outlive the loan it was built in, and the borrow checker is what
//! says so, which is why nothing here is unsafe.
//!
//! A deleting frame passes its stack down by value and takes back what is left instead of lending,
//! since it must keep a child's own encoding. The two forms are what the arms of the descent
//! distinguish, and the type of each call says which it is.

use vstd::prelude::*;

use crate::encode::lemma_header_fits;
use crate::nibbles::MAX_NIBBLES;
use crate::node::{MAX_BRANCH_RLP, MAX_ITEM};
use crate::rlp::{be_bytes, header_len};

verus! {

/// Bytes an RLP list of `payload` bytes occupies.
pub open spec fn list_bytes(payload: int) -> int {
    header_len(payload as nat) + payload
}

/// Bytes `nibbles` occupy as a hex-prefix path.
pub open spec fn path_bytes(nibbles: int) -> int {
    if nibbles <= 1 {
        1
    } else {
        header_len((nibbles / 2 + 1) as nat) + nibbles / 2 + 1
    }
}

/// Bytes the extension a diverging frame at `depth` re-encodes occupies.
pub open spec fn residual_bytes(depth: int) -> int {
    list_bytes(path_bytes(MAX_NIBBLES - 1 - depth) + MAX_ITEM)
}

/// Bytes one frame holds while a deeper frame is live.
pub open spec fn carried_bytes(depth: int) -> int {
    residual_bytes(depth) + MAX_ITEM + BRANCH_CARRY
}

/// Bytes a value and the leaf that holds it take where a key has no nibble left.
pub const LEAF_TAIL: usize = 225;

/// Bytes a frame at `depth` writes of an extension it splits: what is left of it, and the item that
/// is referenced through. Where every extension leaves a nibble below it (`roomy`) its path is a
/// nibble shorter, which at the last nibble but one leaves nothing to write.
pub open spec fn split_bytes(depth: int, roomy: bool) -> int {
    if !roomy {
        residual_bytes(depth) + MAX_ITEM
    } else if depth < 62 {
        residual_bytes(depth + 1) + MAX_ITEM
    } else {
        0
    }
}

/// Bytes a descent from `depth` holds at once at most, which is what each frame carries down to the
/// last nibble, in a trie where every extension leaves a nibble below it or in any at all.
pub open spec fn descent_bytes(depth: int, roomy: bool) -> int
    decreases 64 - depth,
{
    if depth >= 64 {
        LEAF_TAIL as int
    } else if depth == 63 {
        FRAME_TAIL as int
    } else {
        split_bytes(depth, roomy) + BRANCH_CARRY + descent_bytes(depth + 1, roomy)
    }
}

/// Bytes a branch frame at `depth` holds at once at most, which is what a descent does less the
/// extension the frame may have re-encoded and referenced above it.
pub open spec fn branch_descent_bytes(depth: int, roomy: bool) -> int {
    if depth >= 63 {
        FRAME_TAIL as int
    } else {
        BRANCH_CARRY + descent_bytes(depth + 1, roomy)
    }
}

/// Bytes an RLP header of `payload` bytes occupies.
pub fn length_of_length(payload: usize) -> (len: usize)
    ensures
        len == header_len(payload as nat),
{
    alloy_rlp::length_of_length(payload)
}

/// A header that announces no more than two bytes can count is as long as its bounds say.
pub proof fn lemma_header_len(payload: nat)
    requires
        payload < 65536,
    ensures
        payload < 56 ==> header_len(payload) == 1,
        56 <= payload < 256 ==> header_len(payload) == 2,
        256 <= payload ==> header_len(payload) == 3,
{
    reveal_with_fuel(be_bytes, 3);
}

/// Bytes an RLP list of `payload` bytes occupies.
pub fn list_rlp(payload: usize) -> (len: usize)
    requires
        payload <= usize::MAX - 9,
    ensures
        len == list_bytes(payload as int),
{
    proof {
        lemma_header_fits(payload);
    }
    length_of_length(payload) + payload
}

/// Bytes `nibbles` occupy as a hex-prefix path, which is a flag byte and half a nibble each behind
/// a string header. One nibble or none is that flag byte alone, whose value is at most `0x3f`, so
/// it is written bare and carries no header.
pub fn path_rlp(nibbles: usize) -> (len: usize)
    ensures
        len == path_bytes(nibbles as int),
{
    if nibbles <= 1 {
        return 1;
    }
    let bytes: usize = nibbles / 2 + 1;
    proof {
        lemma_header_fits(bytes);
    }
    length_of_length(bytes) + bytes
}

/// Bytes the extension a diverging frame at `depth` re-encodes occupies. Its path is what a whole
/// key leaves below the nibble that frame splits on, so it narrows as the descent goes deeper.
pub fn residual_rlp(depth: usize) -> (len: usize)
    requires
        depth < MAX_NIBBLES,
    ensures
        len == residual_bytes(depth as int),
{
    proof {
        lemma_residual_bytes(depth as int);
    }
    list_rlp(path_rlp(MAX_NIBBLES - 1 - depth) + MAX_ITEM)
}

/// Bytes the extension a diverging frame re-encodes occupies, its headers counted out.
spec fn counted_residual(depth: int) -> int {
    let nibbles = MAX_NIBBLES - 1 - depth;
    let payload = if nibbles <= 1 { 1 + MAX_ITEM } else { nibbles / 2 + 2 + MAX_ITEM };
    if payload < 56 {
        1 + payload
    } else {
        2 + payload
    }
}

/// The headers of what a frame re-encodes take a byte or two.
proof fn lemma_residual_bytes(depth: int)
    requires
        0 <= depth < 64,
    ensures
        path_bytes(MAX_NIBBLES - 1 - depth) <= 34,
        0 < residual_bytes(depth) <= 69,
        residual_bytes(depth) == counted_residual(depth),
{
    let nibbles = MAX_NIBBLES - 1 - depth;
    lemma_header_len((nibbles / 2 + 1) as nat);
    lemma_header_len((path_bytes(nibbles) + MAX_ITEM) as nat);
}

/// What the frames of a descent hold, added up. Two nibbles more of a path take a byte, a path of one
/// nibble is a byte short of that, and a list of more than fifty-five bytes takes one for its header.
proof fn lemma_descent_sum(depth: int)
    requires
        0 <= depth <= 63,
    ensures
        ({
            let frames = 63 - depth;
            let short: int = if frames > 0 { 1 } else { 0 };
            let wide: int = if frames > 41 { frames - 41 } else { 0 };
            descent_bytes(depth, false) == FRAME_TAIL + 1096 * frames + (frames / 2) * (frames - frames / 2)
                - short + wide
        }),
    decreases 63 - depth,
{
    lemma_branch_carry();
    if depth < 63 {
        let frames = 63 - depth;
        let half = frames / 2;
        let fewer = 63 - (depth + 1);
        let less = fewer / 2;
        lemma_residual_bytes(depth);
        lemma_descent_sum(depth + 1);
        assert(half * (frames - half) == less * (fewer - less) + half) by (nonlinear_arith)
            requires
                fewer == frames - 1,
                half == frames / 2,
                less == fewer / 2,
                frames > 0,
        {
            if frames % 2 == 0 {
                assert(less == half - 1 && frames == 2 * half);
                assert(half * half == (half - 1) * half + half);
            } else {
                assert(less == half && frames == 2 * half + 1);
                assert(half * (half + 1) == half * half + half);
            }
        }
    }
}

/// What a branch frame holds while one of its children runs, added up.
pub proof fn lemma_branch_carry()
    ensures
        BRANCH_CARRY == 1027,
{
    assert(MAX_ITEM == 33);
    assert(MAX_BRANCH_RLP == 532);
}

/// Bytes a branch frame holds while one of its children runs, which is the child encoding a
/// collapse could still read plus an item per finished child. A child's item is taken when it
/// returns, so the one the descent continues on leaves fifteen of the sixteen outstanding.
pub const BRANCH_CARRY: usize = (16 - 1) * MAX_ITEM + MAX_BRANCH_RLP;

/// Bytes one frame holds while a deeper frame is live.
///
/// The widest is an extension the change set leaves at its first nibble. That frame re-encodes the
/// rest of its own path, references it and then runs the whole branch loop on the children it built
/// without going a level deeper, so one nibble pays for a split and a branch frame together.
pub fn frame_carry(depth: usize) -> (len: usize)
    requires
        depth < MAX_NIBBLES,
    ensures
        len == carried_bytes(depth as int),
{
    proof {
        lemma_residual_bytes(depth as int);
        lemma_branch_carry();
    }
    residual_rlp(depth) + MAX_ITEM + BRANCH_CARRY
}

/// Bytes the frame at the last nibble holds. Its extension has a single nibble left, so it runs its
/// branch loop without re-encoding a residual, and the deletion that buys the collapse spare
/// empties one of the sixteen slots rather than filling it, because a key ends where those slots
/// sit and a node whose path reaches past the end of one is refused. That gap narrows both the
/// items the frame holds and the branch it closes, whose header takes three bytes.
pub const FRAME_TAIL: usize = MAX_BRANCH_RLP + ((16 - 1) * MAX_ITEM + 1) + (3 + (16 - 1) * MAX_ITEM
    + 2);

/// Bytes the scratch reserves, which is the most a descent can hold at once.
///
/// Keys are 32-byte hashes, so a path is [`MAX_NIBBLES`] nibbles and every frame consumes at least
/// one. A descent is therefore at most that many frames deep, and the sum is the worst each frame
/// holds while the one under it runs. Every term comes from the trie and from RLP, so the figure
/// does not move with the gas limit or with anything else a block chooses.
pub const STACK_LEN: usize = 71589;

/// The bytes the scratch reserves are the ones a descent from the root holds at most, of which one
/// where every extension leaves a nibble below it holds all but the widest extension a frame writes
/// and its reference, and the frame at the last nibble closes a branch of the width its header is
/// counted for.
pub proof fn law_stack_len_is_derived()
    ensures
        STACK_LEN == descent_bytes(0, false),
        STACK_LEN - 101 == descent_bytes(0, true),
        FRAME_TAIL == MAX_BRANCH_RLP + ((16 - 1) * MAX_ITEM + 1) + list_bytes(
            (16 - 1) * MAX_ITEM + 2,
        ),
{
    lemma_descent_sum(0);
    lemma_residual_bytes(0);
    lemma_room_saves(0);
    lemma_header_len(((16 - 1) * MAX_ITEM + 2) as nat);
}

/// Where every extension leaves a nibble below it, a descent holds less by what the first frame
/// writes of one it splits.
pub proof fn lemma_room_saves(depth: int)
    requires
        0 <= depth <= 64,
    ensures
        depth <= 62 ==> descent_bytes(depth, true) + residual_bytes(depth) + MAX_ITEM == descent_bytes(
            depth,
            false,
        ),
        depth > 62 ==> descent_bytes(depth, true) == descent_bytes(depth, false),
        descent_bytes(depth, true) <= descent_bytes(depth, false),
    decreases 64 - depth,
{
    if depth <= 62 {
        lemma_residual_bytes(depth);
        lemma_room_saves(depth + 1);
    }
}

/// A deeper descent holds less, by what each frame between carries.
pub proof fn lemma_descent_bytes(depth: int, deeper: int, roomy: bool)
    requires
        0 <= depth < deeper <= 64,
    ensures
        descent_bytes(deeper, roomy) >= LEAF_TAIL,
        descent_bytes(depth, roomy) >= FRAME_TAIL,
        descent_bytes(depth, roomy) >= descent_bytes(deeper, roomy) + 1000,
        branch_descent_bytes(depth, roomy) <= descent_bytes(depth, roomy),
        deeper <= 63 ==> descent_bytes(deeper, roomy) >= FRAME_TAIL,
    decreases deeper - depth,
{
    lemma_branch_carry();
    lemma_descent_floor(depth, roomy);
    if depth < 63 {
        lemma_residual_bytes(depth);
        lemma_residual_bytes(depth + 1);
    }
    if deeper <= 63 {
        lemma_descent_floor(deeper, roomy);
    }
    if depth + 1 < deeper {
        lemma_descent_bytes(depth + 1, deeper, roomy);
    }
}

/// A descent short of the end of a key holds at least what its last frame does.
proof fn lemma_descent_floor(depth: int, roomy: bool)
    requires
        0 <= depth <= 63,
    ensures
        descent_bytes(depth, roomy) >= FRAME_TAIL,
    decreases 63 - depth,
{
    if depth < 63 {
        lemma_residual_bytes(depth);
        lemma_residual_bytes(depth + 1);
        lemma_descent_floor(depth + 1, roomy);
    }
}

/// The peak since it was last taken, which leaves the descent that follows measuring from zero.
pub fn take_peak(peak: &mut usize) -> (taken: usize)
    ensures
        taken == *old(peak),
        *final(peak) == 0,
{
    let taken: usize = *peak;
    *peak = 0;
    taken
}

/// `std::mem::take`, which hands out what the place held and leaves a default value in it.
pub assume_specification<T: core::default::Default>[ core::mem::take::<T> ](dest: &mut T) -> (taken: T)
    ensures
        taken == *old(dest),
        call_ensures(T::default, (), *final(dest)),
;

/// `Vec::leak`, which hands out what the vector held for as long as anything borrows it.
#[verifier::external_body]
pub(crate) fn leaked<'a>(bytes: Vec<u8>) -> (out: &'a mut [u8])
    ensures
        out@ == bytes@,
{
    bytes.leak()
}

/// Bytes that are all zero.
pub open spec fn zeros(len: nat) -> Seq<u8> {
    Seq::new(len, |i: int| 0u8)
}

/// A bump allocator that hands out the front of what is left and keeps the rest.
#[derive(Debug)]
pub struct DynStack<'a> {
    /// Bytes not yet handed out.
    pub free: &'a mut [u8],
    /// Most bytes a descent has handed out at once, counted as a buffer of [`STACK_LEN`] bytes
    /// stands to them.
    pub peak: &'a mut usize,
}

/// Bytes a request for `len` leaves handed out of a buffer of [`STACK_LEN`] bytes.
pub open spec fn handed(left: int, len: int) -> int {
    if STACK_LEN + len < left {
        0
    } else if STACK_LEN + len - left > usize::MAX {
        usize::MAX as int
    } else {
        STACK_LEN + len - left
    }
}

/// The peak a request for `len` leaves behind.
pub open spec fn raised(peak: usize, left: nat, len: nat) -> int {
    if peak < handed(left as int, len as int) {
        handed(left as int, len as int)
    } else {
        peak as int
    }
}

/// What one request for `len` bytes does to a stack: it takes them where the buffer holds them, and
/// raises the peak either way.
pub open spec fn took(before: DynStack, after: DynStack, len: nat) -> bool {
    &&& after.free@.len() == if len <= before.free@.len() {
        before.free@.len() - len
    } else {
        before.free@.len() as int
    }
    &&& *after.peak == raised(*before.peak, before.free@.len(), len)
}

/// What a run of requests took from a stack for good, at most `kept`, and what it raised the peak
/// to, loans it took back included: at most `most`.
pub open spec fn held(before: DynStack, after: DynStack, kept: int, most: int) -> bool {
    &&& after.free@.len() <= before.free@.len() <= after.free@.len() + kept
    &&& *before.peak <= *after.peak
    &&& *after.peak == *before.peak || *after.peak <= STACK_LEN + most - before.free@.len()
}

/// What a run of requests took from a stack, and what it raised the peak to: at most `bytes`.
pub open spec fn spent(before: DynStack, after: DynStack, bytes: int) -> bool {
    held(before, after, bytes, bytes)
}

/// A request that leaves the peak within a buffer of [`STACK_LEN`] bytes is one the buffer held, so a
/// descent whose peak stays there took nothing from the heap.
pub proof fn law_peak_within_buffer(peak: usize, left: nat, len: nat)
    requires
        left <= STACK_LEN,
        raised(peak, left, len) <= STACK_LEN,
    ensures
        len <= left,
{
}

/// The peak counts the bytes of a buffer of [`STACK_LEN`] that are handed out once a request is served,
/// and never falls. With the buffer whole, that is what the request asked for, and each request after
/// it counts on top of what was taken.
pub proof fn law_peak_counts_bytes(peak: usize, taken: nat, len: nat)
    requires
        taken <= STACK_LEN,
        taken + len <= usize::MAX,
    ensures
        raised(peak, (STACK_LEN - taken) as nat, len) == if peak < taken + len {
            (taken + len) as int
        } else {
            peak as int
        },
{
}

/// Bytes replaced in the middle leave what is ahead of them and what is behind.
pub proof fn law_spliced_bytes(buf: Seq<u8>, start: int, end: int, bytes: Seq<u8>)
    requires
        0 <= start <= end <= buf.len(),
    ensures
        spliced(buf, start, end, bytes).len() == buf.len() - (end - start) + bytes.len(),
        forall|i: int| 0 <= i < start ==> #[trigger] spliced(buf, start, end, bytes)[i] == buf[i],
        forall|i: int|
            0 <= i < bytes.len() ==> spliced(buf, start, end, bytes)[start + i] == #[trigger] bytes[i],
        forall|i: int|
            end <= i < buf.len() ==> spliced(buf, start, end, bytes)[start + bytes.len() + i - end]
                == #[trigger] buf[i],
{
}

/// Whether the bytes handed out between two states of a stack are as many once every borrow of them
/// has ended as they were, given what was free then and what those bytes end up as, and the same of
/// what is free now. It is what a loan comes back whole by.
pub open spec fn keeps_length(
    before: Seq<u8>,
    before_ends: Seq<u8>,
    after: Seq<u8>,
    after_ends: Seq<u8>,
) -> bool {
    before_ends.len() - before.len() == after_ends.len() - after.len()
}

impl<'a> DynStack<'a> {
    /// A stack over `buffer`, which raises `peak` as it hands bytes out.
    pub fn new(buffer: &'a mut [u8], peak: &'a mut usize) -> (stack: Self)
        ensures
            stack.free@ == old(buffer)@,
            *stack.peak == *old(peak),
            *final(stack.peak) == *final(peak),
            final(stack.free)@ == final(buffer)@,
    {
        DynStack { free: buffer, peak }
    }

    /// Lends what is left, which is how a frame gives a child scratch it takes back.
    pub fn lend(&mut self) -> (lent: DynStack<'_>)
        ensures
            lent.free@ == old(self).free@,
            *lent.peak == *old(self).peak,
            *final(self).peak == *final(lent.peak),
            final(self).free@ == final(lent.free)@,
            final(final(self).free)@ == final(old(self).free)@,
            *final(final(self).peak) == *final(old(self).peak),
    {
        DynStack { free: &mut *self.free, peak: &mut *self.peak }
    }

    /// Scratch of `len` bytes, which holds whatever the last frame to be handed these bytes wrote.
    /// It is the front of what is free, so what is written to it ends up in the buffer ahead of
    /// what is written to the rest.
    ///
    /// Every encoding fills what it asks for, so nothing reads scratch it has not written. A
    /// request the buffer cannot hold is served from the heap, which keeps a bound that turned out
    /// to be wrong a cost in memory rather than a block rejected, and it is recorded like any other
    /// request, so a descent that outgrew the buffer shows as a peak above it.
    pub fn allocate(&mut self, len: usize) -> (out: &'a mut [u8])
        ensures
            out@.len() == len,
            len <= old(self).free@.len() ==> {
                &&& out@ == old(self).free@.subrange(0, len as int)
                &&& final(self).free@ == old(self).free@.skip(len as int)
                &&& final(old(self).free)@ == final(out)@ + final(final(self).free)@
            },
            len > old(self).free@.len() ==> {
                &&& out@ == zeros(len as nat)
                &&& final(self).free@ == old(self).free@
                &&& final(old(self).free)@ == final(final(self).free)@
            },
            took(*old(self), *final(self), len as nat),
            spent(*old(self), *final(self), len as int),
            *final(final(self).peak) == *final(old(self).peak),
    {
        // What the heap serves is counted like any other request.
        let left: usize = self.free.len();
        let room: usize = if left <= STACK_LEN { STACK_LEN - left } else { 0 };
        let excess: usize = if left <= STACK_LEN { 0 } else { left - STACK_LEN };
        let count: usize = if len < excess {
            0
        } else if len - excess > usize::MAX - room {
            usize::MAX
        } else {
            room + (len - excess)
        };
        let peak: usize = *self.peak;
        if peak < count {
            *self.peak = count;
        }
        if len > left {
            let out = leaked(vec![0; len]);
            assert(out@ =~= zeros(len as nat));
            return out;
        }
        let (out, free) = core::mem::take(&mut self.free).split_at_mut(len);
        self.free = free;
        out
    }

    /// Scratch holding a copy of `src`.
    pub fn alloc_copy(&mut self, src: &[u8]) -> (out: &'a [u8])
        ensures
            out@ == src@,
            src@.len() <= old(self).free@.len() ==> {
                &&& final(self).free@ == old(self).free@.skip(src@.len() as int)
                &&& final(old(self).free)@ == out@ + final(final(self).free)@
            },
            src@.len() > old(self).free@.len() ==> {
                &&& final(self).free@ == old(self).free@
                &&& final(old(self).free)@ == final(final(self).free)@
            },
            took(*old(self), *final(self), src@.len()),
            spent(*old(self), *final(self), src@.len() as int),
            *final(final(self).peak) == *final(old(self).peak),
    {
        let out = self.allocate(src.len());
        write_bytes(out, 0, src);
        assert(out@ =~= src@);
        out
    }
}

/// `buf` with the bytes from `start` up to `end` replaced.
pub open spec fn spliced(buf: Seq<u8>, start: int, end: int, bytes: Seq<u8>) -> Seq<u8> {
    buf.subrange(0, start) + bytes + buf.skip(end)
}

/// Copies `bytes` into `out` at `pos` and returns the position after them.
pub fn write_bytes(out: &mut [u8], pos: usize, bytes: &[u8]) -> (end: usize)
    requires
        pos + bytes@.len() <= old(out)@.len(),
    ensures
        end == pos + bytes@.len(),
        final(out)@ == spliced(old(out)@, pos as int, end as int, bytes@),
{
    let ghost before = out@;
    let mut at: usize = 0;
    let size: usize = out.len();
    while at < bytes.len()
        invariant
            at <= bytes@.len(),
            size == before.len(),
            pos + bytes@.len() <= size,
            out@.len() == before.len(),
            forall|i: int|
                0 <= i < size ==> #[trigger] out@[i] == if pos <= i < pos + at {
                    bytes@[i - pos]
                } else {
                    before[i]
                },
        decreases bytes.len() - at,
    {
        out[pos + at] = bytes[at];
        at = at + 1;
    }
    assert(out@ =~= spliced(before, pos as int, pos + bytes@.len(), bytes@));
    pos + at
}

} // verus!
