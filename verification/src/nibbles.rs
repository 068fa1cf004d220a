//! Keys and node paths as nibble sequences, and the hex-prefix form a node encodes a path in.

use vstd::prelude::*;
use vstd::slice::slice_subrange;

use crate::error::PathError;

verus! {

/// Nibbles in a key, which is always a 32-byte hash here.
pub const MAX_NIBBLES: usize = 64;

/// Longest hex-prefix encoding of a path, which is a flag byte plus a whole key.
pub const MAX_ENCODED_PATH: usize = 33;

/// Path holds an odd number of nibbles, so the low nibble of the flag byte is data.
pub const HEX_PREFIX_FLAG_ODD: u8 = 0x10;

/// Node is a leaf rather than an extension.
pub const HEX_PREFIX_FLAG_LEAF: u8 = 0x20;

/// Whether every element is a nibble.
pub open spec fn is_path(path: Seq<u8>) -> bool {
    forall|i: int| 0 <= i < path.len() ==> #[trigger] path[i] < 16
}

/// The nibbles bytes hold, most significant first.
pub open spec fn unpacked(bytes: Seq<u8>) -> Seq<u8> {
    Seq::new(
        2 * bytes.len(),
        |i: int|
            if i % 2 == 0 {
                bytes[i / 2] / 16
            } else {
                bytes[i / 2] % 16
            },
    )
}

/// The bytes an even number of nibbles fill.
pub open spec fn packed(nibbles: Seq<u8>) -> Seq<u8> {
    Seq::new(nibbles.len() / 2, |i: int| (nibbles[2 * i] * 16 + nibbles[2 * i + 1]) as u8)
}

/// The flag byte of a path, less the nibble an odd path puts beside the flags.
pub open spec fn flag_byte(is_odd: bool, is_leaf: bool) -> int {
    (if is_odd { 0x10int } else { 0 }) + (if is_leaf { 0x20int } else { 0 })
}

/// The hex-prefix encoding of a path.
pub open spec fn hex_prefix(path: Seq<u8>, is_leaf: bool) -> Seq<u8> {
    if path.len() % 2 == 0 {
        seq![flag_byte(false, is_leaf) as u8] + packed(path)
    } else {
        seq![(flag_byte(true, is_leaf) + path[0]) as u8] + packed(path.skip(1))
    }
}

/// Whether the flag byte says that a path holds an odd number of nibbles.
pub open spec fn flags_odd(flags: u8) -> bool {
    flags / 16 % 2 == 1
}

/// Whether the flag byte says that a path is a leaf's.
pub open spec fn flags_leaf(flags: u8) -> bool {
    flags / 32 % 2 == 1
}

/// The nibbles a hex-prefix encoding holds.
pub open spec fn path_of(encoded: Seq<u8>) -> Seq<u8> {
    if encoded.len() == 0 {
        Seq::empty()
    } else if flags_odd(encoded[0]) {
        seq![encoded[0] % 16] + unpacked(encoded.skip(1))
    } else {
        unpacked(encoded.skip(1))
    }
}

/// Whether `path` is what `nibbles` hold from `from` on, as far as it goes.
pub open spec fn follows(nibbles: Seq<u8>, from: int, path: Seq<u8>) -> bool {
    &&& from + path.len() <= nibbles.len()
    &&& nibbles.subrange(from, from + path.len()) == path
}

/// A path follows a key from a nibble on where each of its nibbles is the one the key has there.
pub proof fn law_follows_nibbles(nibbles: Seq<u8>, from: int, path: Seq<u8>)
    requires
        0 <= from,
    ensures
        follows(nibbles, from, path) <==> from + path.len() <= nibbles.len() && forall|i: int|
            0 <= i < path.len() ==> #[trigger] path[i] == nibbles[from + i],
{
    if from + path.len() <= nibbles.len() {
        let part = nibbles.subrange(from, from + path.len());
        assert forall|i: int| 0 <= i < path.len() implies #[trigger] part[i] == nibbles[from + i] by {}
        if forall|i: int| 0 <= i < path.len() ==> #[trigger] path[i] == nibbles[from + i] {
            assert(part =~= path);
        }
        if part == path {
            assert forall|i: int| 0 <= i < path.len() implies #[trigger] path[i] == nibbles[from
                + i] by {
                assert(part[i] == path[i]);
            }
        }
    }
}

/// The length of the longest prefix two nibble sequences share.
pub open spec fn shared_len(left: Seq<u8>, right: Seq<u8>) -> nat
    decreases left.len(),
{
    if left.len() == 0 || right.len() == 0 || left[0] != right[0] {
        0
    } else {
        1 + shared_len(left.skip(1), right.skip(1))
    }
}

/// Two sequences are alike as far as the prefix they share goes, and part behind it.
pub proof fn lemma_shared_len(left: Seq<u8>, right: Seq<u8>)
    ensures
        shared_len(left, right) <= left.len(),
        shared_len(left, right) <= right.len(),
        left.subrange(0, shared_len(left, right) as int) == right.subrange(
            0,
            shared_len(left, right) as int,
        ),
        shared_len(left, right) < left.len() && shared_len(left, right) < right.len()
            ==> left[shared_len(left, right) as int] != right[shared_len(left, right) as int],
        left.len() == right.len() && left != right ==> shared_len(left, right) < left.len(),
        left == right ==> shared_len(left, right) == left.len(),
    decreases left.len(),
{
    let shared = shared_len(left, right) as int;
    if left.len() == 0 || right.len() == 0 || left[0] != right[0] {
        assert(left.subrange(0, 0) =~= right.subrange(0, 0));
        if left.len() == 0 && right.len() == 0 {
            assert(left =~= right);
        }
    } else {
        lemma_shared_len(left.skip(1), right.skip(1));
        assert(left.subrange(0, shared) =~= seq![left[0]] + left.skip(1).subrange(0, shared - 1));
        assert(right.subrange(0, shared) =~= seq![right[0]] + right.skip(1).subrange(0, shared - 1));
        if left != right && left.len() == right.len() {
            if left.skip(1) == right.skip(1) {
                assert(left =~= seq![left[0]] + left.skip(1));
                assert(right =~= seq![right[0]] + right.skip(1));
            }
        }
    }
}

/// The bits the nibbles of a byte and the flags of a path are read through.
pub proof fn lemma_byte_bits(byte: u8)
    ensures
        byte >> 4 == byte / 16,
        byte & 0x0f == byte % 16,
        (byte & 0x10 != 0) == flags_odd(byte),
        (byte & 0x20 != 0) == flags_leaf(byte),
        byte / 16 < 16,
        byte % 16 < 16,
{
    assert(byte >> 4 == byte / 16) by (bit_vector);
    assert(byte & 0x0f == byte % 16) by (bit_vector);
    assert((byte & 0x10 != 0) == (byte / 16 % 2 == 1)) by (bit_vector);
    assert((byte & 0x20 != 0) == (byte / 32 % 2 == 1)) by (bit_vector);
}

/// Two nibbles packed into a byte.
proof fn lemma_pack(high: u8, low: u8)
    requires
        high < 16,
        low < 16,
    ensures
        (high << 4) | low == high * 16 + low,
{
    assert((high << 4) | low == high * 16 + low) by (bit_vector)
        requires
            high < 16,
            low < 16,
    ;
}

/// Expands a key into its nibbles, most significant first.
pub fn key_nibbles(key: &[u8; 32]) -> (nibbles: [u8; 64])
    ensures
        nibbles@ == unpacked(key@),
{
    let mut nibbles: [u8; 64] = [0; 64];
    let mut at: usize = 0;
    while at < 32
        invariant
            at <= 32,
            forall|i: int| 0 <= i < 2 * at ==> nibbles@[i] == unpacked(key@)[i],
        decreases 32 - at,
    {
        let byte: u8 = key[at];
        proof {
            lemma_byte_bits(byte);
        }
        nibbles[2 * at] = byte >> 4;
        nibbles[2 * at + 1] = byte & 0x0f;
        at = at + 1;
    }
    assert(nibbles@ =~= unpacked(key@));
    nibbles
}

/// The nibble a key holds at `depth`.
pub fn nibble_at(key: &[u8; 32], depth: usize) -> (nibble: u8)
    requires
        depth < MAX_NIBBLES,
    ensures
        nibble == unpacked(key@)[depth as int],
        nibble < 16,
{
    let byte: u8 = key[depth / 2];
    proof {
        lemma_byte_bits(byte);
    }
    if depth % 2 == 0 {
        byte >> 4
    } else {
        byte & 0x0f
    }
}

/// The nibbles `encoded` holds where they are the ones `key` carries from `depth`, or `None` where
/// the two part.
///
/// A key stays packed. Where what is left of the path starts on a whole byte of it, which is every
/// leaf and every extension of even length, the two are compared whole rather than expanded into
/// nibbles a walk of a level or two would never look at.
pub fn path_from(key: &[u8; 32], depth: usize, encoded: &[u8]) -> (taken: Option<usize>)
    requires
        depth <= MAX_NIBBLES,
    ensures
        encoded@.len() > 0 && follows(unpacked(key@), depth as int, path_of(encoded@)) ==> taken
            == Some(path_of(encoded@).len() as usize),
        !(encoded@.len() > 0 && follows(unpacked(key@), depth as int, path_of(encoded@))) ==> taken
            is None,
{
    if encoded.len() == 0 {
        return None;
    }
    let flags: u8 = encoded[0];
    proof {
        lemma_byte_bits(flags);
    }
    let is_odd = flags & HEX_PREFIX_FLAG_ODD != 0;
    let odd: usize = if is_odd { 1 } else { 0 };
    // A path running past the last nibble of a key is one no key reaches the end of, and is what
    // holds every index below in range.
    if encoded.len() - 1 > MAX_NIBBLES || depth + 2 * (encoded.len() - 1) + odd > MAX_NIBBLES {
        return None;
    }
    let len: usize = 2 * (encoded.len() - 1) + odd;
    let ghost nibbles = unpacked(key@);
    let ghost path = path_of(encoded@);
    let ghost d = depth as int;
    assert(path.len() == len);
    if is_odd && flags & 0x0f != nibble_at(key, depth) {
        assert(path[0] == flags % 16);
        assert(nibbles.subrange(d, d + path.len())[0] == nibbles[d]);
        return None;
    }
    let first: usize = depth + odd;
    if first % 2 == 0 {
        let start: usize = first / 2;
        let mut step: usize = 0;
        while step < encoded.len() - 1
            invariant
                step <= encoded@.len() - 1,
                encoded@.len() >= 1,
                first == depth + odd,
                odd == (if flags_odd(encoded@[0]) { 1usize } else { 0 }),
                depth + 2 * (encoded@.len() - 1) + odd <= 64,
                first % 2 == 0,
                start == first / 2,
                d == depth,
                path == path_of(encoded@),
                nibbles == unpacked(key@),
                path.len() == 2 * (encoded@.len() - 1) + odd,
                forall|i: int| 0 <= i < step ==> #[trigger] encoded@[1 + i] == key@[start + i],
            decreases encoded.len() - 1 - step,
        {
            if encoded[1 + step] != key[start + step] {
                proof {
                    let byte = encoded@[1 + step];
                    let other = key@[start + step];
                    let p = odd + 2 * step;
                    assert(path[p] == byte / 16);
                    assert(path[p + 1] == byte % 16);
                    assert(nibbles.subrange(d, d + path.len())[p] == nibbles[d + p]);
                    assert(nibbles.subrange(d, d + path.len())[p + 1] == nibbles[d + p + 1]);
                    assert(nibbles[d + p] == other / 16);
                    assert(nibbles[d + p + 1] == other % 16);
                    assert(byte / 16 != other / 16 || byte % 16 != other % 16);
                }
                return None;
            }
            step = step + 1;
        }
        proof {
            assert forall|i: int| 0 <= i < path.len() implies #[trigger] path[i] == nibbles[d + i] by {
                if i >= odd {
                    assert(encoded@[1 + (i - odd) / 2] == key@[start + (i - odd) / 2]);
                    assert((d + i) / 2 == start + (i - odd) / 2);
                    assert((d + i) % 2 == (i - odd) % 2);
                }
            }
            assert(nibbles.subrange(d, d + path.len()) =~= path);
        }
        return Some(len);
    }
    let mut step: usize = 0;
    while step < encoded.len() - 1
        invariant
            step <= encoded@.len() - 1,
            encoded@.len() >= 1,
            first == depth + odd,
            odd == (if flags_odd(encoded@[0]) { 1usize } else { 0 }),
            depth + 2 * (encoded@.len() - 1) + odd <= 64,
            d == depth,
            path == path_of(encoded@),
            nibbles == unpacked(key@),
            path.len() == 2 * (encoded@.len() - 1) + odd,
            odd == 1 ==> path[0] == nibbles[d],
            forall|i: int| 0 <= i < odd + 2 * step ==> #[trigger] path[i] == nibbles[d + i],
        decreases encoded.len() - 1 - step,
    {
        let byte: u8 = encoded[1 + step];
        let at: usize = first + 2 * step;
        proof {
            lemma_byte_bits(byte);
            assert(path[odd + 2 * step] == byte / 16);
            assert(path[odd + 2 * step + 1] == byte % 16);
        }
        if byte >> 4 != nibble_at(key, at) || byte & 0x0f != nibble_at(key, at + 1) {
            proof {
                let p = odd + 2 * step;
                assert(nibbles.subrange(d, d + path.len())[p] == nibbles[d + p]);
                assert(nibbles.subrange(d, d + path.len())[p + 1] == nibbles[d + p + 1]);
            }
            return None;
        }
        step = step + 1;
    }
    assert(nibbles.subrange(d, d + path.len()) =~= path);
    Some(len)
}

/// The hex-prefix encoding of the nibbles `key` carries from `from` up to `to`.
///
/// A key stays packed. Where what is left to encode starts on a whole byte of it, which is every
/// leaf written at an even depth, the bytes are copied rather than expanded into nibbles this would
/// only pack again.
pub fn hex_prefix_from_key<'o>(
    key: &[u8; 32],
    from: usize,
    to: usize,
    is_leaf: bool,
    out: &'o mut [u8; 33],
) -> (encoded: &'o [u8])
    requires
        from <= to <= MAX_NIBBLES,
    ensures
        encoded@ == hex_prefix(unpacked(key@).subrange(from as int, to as int), is_leaf),
        final(out)@ == encoded@ + old(out)@.skip(encoded@.len() as int),
{
    let ghost before = out@;
    let len: usize = to - from;
    let ghost nibbles = unpacked(key@);
    let ghost path = nibbles.subrange(from as int, to as int);
    let mut flags: u8 = if is_leaf { HEX_PREFIX_FLAG_LEAF } else { 0 };
    let mut start: usize = from;
    if len % 2 != 0 {
        let nibble: u8 = nibble_at(key, from);
        assert(0x10u8 | nibble == 0x10 + nibble && (0x20u8 | (0x10u8 | nibble)) == 0x30 + nibble
            && (0u8 | (0x10u8 | nibble)) == 0x10 + nibble) by (bit_vector)
            requires
                nibble < 16,
        ;
        flags = flags | (HEX_PREFIX_FLAG_ODD | nibble);
        start = from + 1;
    }
    out[0] = flags;
    let ghost expected = hex_prefix(path, is_leaf);
    assert(flags == expected[0]);
    let ghost rest = nibbles.subrange(start as int, to as int);
    assert(rest =~= if len % 2 == 0 { path } else { path.skip(1) });
    let size: usize = len / 2;
    let mut step: usize = 0;
    while step < size
        invariant
            step <= size,
            size <= 32,
            start + 2 * size == to,
            to <= 64,
            nibbles == unpacked(key@),
            rest == nibbles.subrange(start as int, to as int),
            out@.len() == 33,
            out@[0] == flags,
            forall|i: int| 0 <= i < step ==> #[trigger] out@[1 + i] == packed(rest)[i],
            forall|i: int| 1 + step <= i < 33 ==> #[trigger] out@[i] == before[i],
        decreases size - step,
    {
        let at: usize = start + 2 * step;
        let byte: u8 = if start % 2 == 0 {
            key[start / 2 + step]
        } else {
            let high: u8 = nibble_at(key, at);
            let low: u8 = nibble_at(key, at + 1);
            proof {
                lemma_pack(high, low);
            }
            (high << 4) | low
        };
        proof {
            assert(rest[2 * step as int] == nibbles[at as int]);
            assert(rest[2 * step + 1] == nibbles[at + 1]);
            if start % 2 == 0 {
                assert(at as int / 2 == start as int / 2 + step);
                assert((at as int + 1) / 2 == start as int / 2 + step);
            }
        }
        out[1 + step] = byte;
        step = step + 1;
    }
    let encoded = slice_subrange(out.as_slice(), 0, 1 + size);
    assert forall|j: int| 0 < j < encoded@.len() implies #[trigger] encoded@[j] == expected[j] by {
        assert(out@[1 + (j - 1)] == packed(rest)[j - 1]);
    }
    assert(encoded@ =~= expected);
    assert(out@ =~= encoded@ + before.skip(encoded@.len() as int));
    encoded
}

/// Length of the common prefix of two nibble sequences.
pub fn common_prefix_len(left: &[u8], right: &[u8]) -> (shared: usize)
    ensures
        shared == shared_len(left@, right@),
{
    let mut shared: usize = 0;
    assert(left@.skip(0) =~= left@ && right@.skip(0) =~= right@);
    while shared < left.len() && shared < right.len() && left[shared] == right[shared]
        invariant
            shared <= left@.len(),
            shared <= right@.len(),
            shared_len(left@, right@) == shared + shared_len(
                left@.skip(shared as int),
                right@.skip(shared as int),
            ),
        decreases left.len() - shared,
    {
        assert(left@.skip(shared as int).skip(1) =~= left@.skip(shared + 1));
        assert(right@.skip(shared as int).skip(1) =~= right@.skip(shared + 1));
        shared = shared + 1;
    }
    shared
}

/// Expands a hex-prefix encoded path into `out` and returns its nibbles.
pub fn hex_prefix_decode<'o>(encoded: &[u8], out: &'o mut [u8; 64]) -> (path: Result<
    &'o [u8],
    PathError,
>)
    ensures
        encoded@.len() == 0 || path_of(encoded@).len() > MAX_NIBBLES ==> path == Err::<
            &'o [u8],
            PathError,
        >(PathError::MalformedPath),
        !(encoded@.len() == 0 || path_of(encoded@).len() > MAX_NIBBLES) ==> path is Ok && path->Ok_0@
            == path_of(encoded@),
        final(out)@ == match path {
            Ok(path) => path@ + old(out)@.skip(path@.len() as int),
            Err(_) => old(out)@,
        },
{
    let ghost before = out@;
    if encoded.len() == 0 {
        return Err(PathError::MalformedPath);
    }
    let flags: u8 = encoded[0];
    proof {
        lemma_byte_bits(flags);
    }
    let odd: usize = if flags & HEX_PREFIX_FLAG_ODD != 0 { 1 } else { 0 };
    if encoded.len() - 1 > MAX_NIBBLES || 2 * (encoded.len() - 1) + odd > MAX_NIBBLES {
        return Err(PathError::MalformedPath);
    }
    let len: usize = 2 * (encoded.len() - 1) + odd;
    if odd == 1 {
        out[0] = flags & 0x0f;
    }
    let mut step: usize = 0;
    while step < encoded.len() - 1
        invariant
            step <= encoded@.len() - 1,
            encoded@.len() >= 1,
            odd == (if flags_odd(encoded@[0]) { 1usize } else { 0 }),
            2 * (encoded@.len() - 1) + odd <= 64,
            out@.len() == 64,
            forall|i: int| 0 <= i < odd + 2 * step ==> #[trigger] out@[i] == path_of(encoded@)[i],
            forall|i: int| odd + 2 * step <= i < 64 ==> #[trigger] out@[i] == before[i],
        decreases encoded.len() - 1 - step,
    {
        let byte: u8 = encoded[1 + step];
        proof {
            lemma_byte_bits(byte);
            assert(path_of(encoded@)[odd + 2 * step] == byte / 16);
            assert(path_of(encoded@)[odd + 2 * step + 1] == byte % 16);
        }
        out[odd + 2 * step] = byte >> 4;
        out[odd + 2 * step + 1] = byte & 0x0f;
        step = step + 1;
    }
    let path = slice_subrange(out.as_slice(), 0, len);
    assert(path@ =~= path_of(encoded@));
    assert(out@ =~= path@ + before.skip(path@.len() as int));
    Ok(path)
}

/// Encodes `nibbles` into hex-prefix form in `out` and returns the encoding.
pub fn hex_prefix_encode<'o>(nibbles: &[u8], is_leaf: bool, out: &'o mut [u8; 33]) -> (encoded: &'o [u8])
    requires
        is_path(nibbles@),
        nibbles@.len() < 2 * MAX_ENCODED_PATH,
    ensures
        encoded@ == hex_prefix(nibbles@, is_leaf),
        final(out)@ == encoded@ + old(out)@.skip(encoded@.len() as int),
{
    let ghost before = out@;
    let mut flags: u8 = if is_leaf { HEX_PREFIX_FLAG_LEAF } else { 0 };
    let size: usize = nibbles.len() / 2;
    let odd: usize = nibbles.len() % 2;
    if odd != 0 {
        let nibble: u8 = nibbles[0];
        assert((0x20u8 | (0x10u8 | nibble)) == 0x30 + nibble && (0u8 | (0x10u8 | nibble)) == 0x10
            + nibble) by (bit_vector)
            requires
                nibble < 16,
        ;
        flags = flags | (HEX_PREFIX_FLAG_ODD | nibble);
    }
    out[0] = flags;
    assert(flags == hex_prefix(nibbles@, is_leaf)[0]);
    let ghost rest = nibbles@.skip(odd as int);
    assert(rest =~= if odd == 0 { nibbles@ } else { nibbles@.skip(1) });
    let mut step: usize = 0;
    while step < size
        invariant
            step <= size,
            size <= 32,
            odd < 2,
            nibbles@.len() == 2 * size + odd,
            is_path(nibbles@),
            rest == nibbles@.skip(odd as int),
            out@.len() == 33,
            out@[0] == flags,
            forall|i: int| 0 <= i < step ==> #[trigger] out@[1 + i] == packed(rest)[i],
            forall|i: int| 1 + step <= i < 33 ==> #[trigger] out@[i] == before[i],
        decreases size - step,
    {
        let high: u8 = nibbles[odd + 2 * step];
        let low: u8 = nibbles[odd + 2 * step + 1];
        proof {
            lemma_pack(high, low);
            assert(rest[2 * step as int] == high);
            assert(rest[2 * step + 1] == low);
        }
        out[1 + step] = (high << 4) | low;
        step = step + 1;
    }
    let encoded = slice_subrange(out.as_slice(), 0, 1 + size);
    let ghost expected = hex_prefix(nibbles@, is_leaf);
    assert forall|j: int| 0 < j < encoded@.len() implies #[trigger] encoded@[j] == expected[j] by {
        assert(out@[1 + (j - 1)] == packed(rest)[j - 1]);
    }
    assert(encoded@ =~= expected);
    assert(out@ =~= encoded@ + before.skip(encoded@.len() as int));
    encoded
}

/// Joins a parent path and its child's into `out`.
pub fn merge_paths<'o>(parent: &[u8], child: &[u8], out: &'o mut [u8; 64]) -> (path: Result<
    &'o [u8],
    PathError,
>)
    ensures
        parent@.len() + child@.len() > MAX_NIBBLES ==> path == Err::<&'o [u8], PathError>(
            PathError::MalformedPath,
        ),
        parent@.len() + child@.len() <= MAX_NIBBLES ==> path is Ok && path->Ok_0@ == parent@ + child@,
        final(out)@ == match path {
            Ok(path) => path@ + old(out)@.skip(path@.len() as int),
            Err(_) => old(out)@,
        },
{
    let ghost before = out@;
    if parent.len() > MAX_NIBBLES || child.len() > MAX_NIBBLES - parent.len() {
        return Err(PathError::MalformedPath);
    }
    let mut at: usize = 0;
    while at < parent.len()
        invariant
            at <= parent@.len() <= 64,
            out@.len() == 64,
            forall|i: int| 0 <= i < at ==> out@[i] == parent@[i],
            forall|i: int| at <= i < 64 ==> #[trigger] out@[i] == before[i],
        decreases parent.len() - at,
    {
        out[at] = parent[at];
        at = at + 1;
    }
    let mut step: usize = 0;
    while step < child.len()
        invariant
            step <= child@.len(),
            parent@.len() + child@.len() <= 64,
            out@.len() == 64,
            forall|i: int| 0 <= i < parent@.len() + step ==> out@[i] == (parent@ + child@)[i],
            forall|i: int| parent@.len() + step <= i < 64 ==> #[trigger] out@[i] == before[i],
        decreases child.len() - step,
    {
        out[parent.len() + step] = child[step];
        step = step + 1;
    }
    let path = slice_subrange(out.as_slice(), 0, parent.len() + child.len());
    assert(path@ =~= parent@ + child@);
    assert(out@ =~= path@ + before.skip(path@.len() as int));
    Ok(path)
}

/// A path is read back from its hex-prefix encoding whole, and so is the kind of node it is for.
pub proof fn law_hex_prefix_round_trip(path: Seq<u8>, is_leaf: bool)
    requires
        is_path(path),
    ensures
        path_of(hex_prefix(path, is_leaf)) == path,
        flags_leaf(hex_prefix(path, is_leaf)[0]) == is_leaf,
        hex_prefix(path, is_leaf).len() == 1 + path.len() / 2,
{
    let encoded = hex_prefix(path, is_leaf);
    let rest = if path.len() % 2 == 0 { path } else { path.skip(1) };
    assert(encoded.skip(1) =~= packed(rest));
    assert forall|i: int| 0 <= i < rest.len() implies #[trigger] unpacked(packed(rest))[i] == rest[i] by {
        let high = rest[2 * (i / 2)];
        let low = rest[2 * (i / 2) + 1];
        assert(high < 16 && low < 16);
        assert((high * 16 + low) / 16 == high && (high * 16 + low) % 16 == low);
    }
    assert(unpacked(packed(rest)) =~= rest);
    assert(path_of(encoded) =~= path);
}

/// What a path encodes to is a path a key can be read against: every element of it is a nibble.
pub proof fn lemma_path_of_is_path(encoded: Seq<u8>)
    ensures
        is_path(path_of(encoded)),
{
    assert forall|i: int| 0 <= i < path_of(encoded).len() implies #[trigger] path_of(encoded)[i] < 16 by {
        if encoded.len() > 0 && flags_odd(encoded[0]) && i > 0 {
            assert(path_of(encoded)[i] == unpacked(encoded.skip(1))[i - 1]);
        }
    }
}

} // verus!
