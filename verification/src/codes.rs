//! What the bytecode of a witness is handed out as.

use vstd::prelude::*;

use crate::index::with_code;
use crate::keccak::keccak;
use crate::path::hashed_codes;

verus! {

/// Bytecode whose hash has no place yet takes the end.
proof fn lemma_code_appended(entries: Seq<([u8; 32], Seq<u8>)>, digest: [u8; 32], code: Seq<u8>)
    requires
        forall|k: int| 0 <= k < entries.len() ==> (#[trigger] entries[k]).0 != digest,
    ensures
        with_code(entries, digest, code) == entries.push((digest, code)),
    decreases entries.len(),
{
    if entries.len() > 0 {
        let rest = entries.skip(1);
        assert(entries[0].0 != digest);
        assert forall|k: int| 0 <= k < rest.len() implies (#[trigger] rest[k]).0 != digest by {
            assert(entries[k + 1].0 != digest);
        }
        lemma_code_appended(rest, digest, code);
    }
    assert(with_code(entries, digest, code) =~= entries.push((digest, code)));
}

/// Bytecode whose hash has a place takes it.
proof fn lemma_code_replaced(
    entries: Seq<([u8; 32], Seq<u8>)>,
    digest: [u8; 32],
    code: Seq<u8>,
    at: int,
)
    requires
        0 <= at < entries.len(),
        entries[at].0 == digest,
        forall|k: int| 0 <= k < at ==> (#[trigger] entries[k]).0 != digest,
    ensures
        with_code(entries, digest, code) == entries.update(at, (digest, code)),
    decreases entries.len(),
{
    if at > 0 {
        let rest = entries.skip(1);
        assert(entries[0].0 != digest);
        assert(rest[at - 1] == entries[at]);
        assert forall|k: int| 0 <= k < at - 1 implies (#[trigger] rest[k]).0 != digest by {
            assert(entries[k + 1].0 != digest);
        }
        lemma_code_replaced(rest, digest, code, at - 1);
    }
    assert(with_code(entries, digest, code) =~= entries.update(at, (digest, code)));
}

/// Whether one hash first came in ahead of another.
pub open spec fn came_first(codes: Seq<Vec<u8>>, early: [u8; 32], late: [u8; 32]) -> bool {
    exists|i: int|
        0 <= i < codes.len() && keccak((#[trigger] codes[i])@) == early && forall|m: int|
            0 <= m <= i ==> keccak((#[trigger] codes[m])@) != late
}

/// Whether every code is handed out under its own hash.
#[verifier::opaque]
spec fn all_handed(codes: Seq<Vec<u8>>, entries: Seq<([u8; 32], Seq<u8>)>) -> bool {
    forall|i: int|
        0 <= i < codes.len() ==> exists|j: int|
            0 <= j < entries.len() && (#[trigger] entries[j]).0 == keccak((#[trigger] codes[i])@)
}

/// Whether everything handed out is a code under its own hash.
#[verifier::opaque]
spec fn only_codes(codes: Seq<Vec<u8>>, entries: Seq<([u8; 32], Seq<u8>)>) -> bool {
    &&& forall|j: int|
        0 <= j < entries.len() ==> keccak((#[trigger] entries[j]).1) == entries[j].0
    &&& forall|j: int|
        0 <= j < entries.len() ==> exists|i: int|
            0 <= i < codes.len() && (#[trigger] codes[i])@ == (#[trigger] entries[j]).1
}

/// Whether each hash is handed out with the last code that hashes to it.
#[verifier::opaque]
spec fn last_handed(codes: Seq<Vec<u8>>, entries: Seq<([u8; 32], Seq<u8>)>) -> bool {
    forall|i: int, j: int|
        0 <= i < codes.len() && 0 <= j < entries.len() && keccak((#[trigger] codes[i])@) == (
        #[trigger] entries[j]).0 && (forall|m: int|
            i < m < codes.len() ==> keccak((#[trigger] codes[m])@) != entries[j].0)
            ==> entries[j].1 == codes[i]@
}

/// Whether no hash is handed out twice.
#[verifier::opaque]
spec fn handed_once(entries: Seq<([u8; 32], Seq<u8>)>) -> bool {
    forall|j: int, k: int|
        0 <= j < k < entries.len() ==> (#[trigger] entries[j]).0 != (#[trigger] entries[k]).0
}

/// Whether the hashes are handed out in the order they first came in.
#[verifier::opaque]
spec fn handed_in_turn(codes: Seq<Vec<u8>>, entries: Seq<([u8; 32], Seq<u8>)>) -> bool {
    forall|j: int, k: int|
        0 <= j < k < entries.len() ==> came_first(
            codes,
            (#[trigger] entries[j]).0,
            (#[trigger] entries[k]).0,
        )
}

/// Whether `entries` are `before` with one more code, in the place its hash has or at the end.
#[verifier::opaque]
spec fn one_more(
    before: Seq<([u8; 32], Seq<u8>)>,
    code: Seq<u8>,
    at: int,
    entries: Seq<([u8; 32], Seq<u8>)>,
) -> bool {
    ||| {
        &&& at == before.len()
        &&& forall|k: int| 0 <= k < before.len() ==> (#[trigger] before[k]).0 != keccak(code)
        &&& entries == before.push((keccak(code), code))
    }
    ||| {
        &&& 0 <= at < before.len()
        &&& before[at].0 == keccak(code)
        &&& entries == before.update(at, (keccak(code), code))
    }
}

/// One more code keeps every code handed out.
proof fn lemma_all_handed(
    codes: Seq<Vec<u8>>,
    before: Seq<([u8; 32], Seq<u8>)>,
    at: int,
    entries: Seq<([u8; 32], Seq<u8>)>,
)
    requires
        codes.len() > 0,
        all_handed(codes.drop_last(), before),
        one_more(before, codes.last()@, at, entries),
    ensures
        all_handed(codes, entries),
{
    reveal(all_handed);
    reveal(one_more);
    let front = codes.drop_last();
    assert forall|i: int| 0 <= i < codes.len() implies exists|j: int|
        0 <= j < entries.len() && (#[trigger] entries[j]).0 == keccak((#[trigger] codes[i])@) by {
        if i < codes.len() - 1 {
            assert(front[i] == codes[i]);
            let j = choose|j: int|
                0 <= j < before.len() && (#[trigger] before[j]).0 == keccak(front[i]@);
            assert(entries[j].0 == keccak(codes[i]@));
        } else {
            assert(entries[at].0 == keccak(codes[i]@));
        }
    }
}

/// One more code keeps everything handed out a code.
proof fn lemma_only_codes(
    codes: Seq<Vec<u8>>,
    before: Seq<([u8; 32], Seq<u8>)>,
    at: int,
    entries: Seq<([u8; 32], Seq<u8>)>,
)
    requires
        codes.len() > 0,
        only_codes(codes.drop_last(), before),
        one_more(before, codes.last()@, at, entries),
    ensures
        only_codes(codes, entries),
{
    reveal(only_codes);
    reveal(one_more);
    let front = codes.drop_last();
    assert forall|j: int| 0 <= j < entries.len() implies keccak((#[trigger] entries[j]).1)
        == entries[j].0 by {
        if j != at {
            assert(keccak(before[j].1) == before[j].0);
        }
    }
    assert forall|j: int| 0 <= j < entries.len() implies exists|i: int|
        0 <= i < codes.len() && (#[trigger] codes[i])@ == (#[trigger] entries[j]).1 by {
        if j != at {
            let i = choose|i: int| 0 <= i < front.len() && (#[trigger] front[i])@ == before[j].1;
            assert(codes[i]@ == entries[j].1);
        } else {
            assert(codes[codes.len() - 1]@ == entries[j].1);
        }
    }
}

/// One more code keeps each hash with the last code that hashes to it.
proof fn lemma_last_handed(
    codes: Seq<Vec<u8>>,
    before: Seq<([u8; 32], Seq<u8>)>,
    at: int,
    entries: Seq<([u8; 32], Seq<u8>)>,
)
    requires
        codes.len() > 0,
        handed_once(before),
        last_handed(codes.drop_last(), before),
        one_more(before, codes.last()@, at, entries),
    ensures
        last_handed(codes, entries),
{
    reveal(last_handed);
    reveal(handed_once);
    reveal(one_more);
    let front = codes.drop_last();
    assert forall|i: int, j: int|
        0 <= i < codes.len() && 0 <= j < entries.len() && keccak((#[trigger] codes[i])@) == (
        #[trigger] entries[j]).0 && (forall|m: int|
            i < m < codes.len() ==> keccak((#[trigger] codes[m])@) != entries[j].0) implies
        entries[j].1 == codes[i]@ by {
        if i < codes.len() - 1 {
            assert(keccak(codes[codes.len() - 1]@) != entries[j].0);
            assert(entries[j] == before[j]);
            assert(keccak(front[i]@) == before[j].0);
            assert forall|m: int| i < m < front.len() implies keccak((#[trigger] front[m])@)
                != before[j].0 by {
                assert(front[m] == codes[m]);
            }
        } else if j != at {
            assert(entries[j] == before[j]);
            assert(before[j].0 == keccak(codes.last()@));
            if j < at {
                assert(at == before.len() || before[j].0 != before[at].0);
            } else {
                assert(before[at].0 != before[j].0);
            }
        }
    }
}

/// One more code keeps each hash handed out once.
proof fn lemma_handed_once(
    before: Seq<([u8; 32], Seq<u8>)>,
    code: Seq<u8>,
    at: int,
    entries: Seq<([u8; 32], Seq<u8>)>,
)
    requires
        handed_once(before),
        one_more(before, code, at, entries),
    ensures
        handed_once(entries),
{
    reveal(handed_once);
    reveal(one_more);
    assert forall|j: int, k: int| 0 <= j < k < entries.len() implies (#[trigger] entries[j]).0 != (
    #[trigger] entries[k]).0 by {
        if k < before.len() {
            assert(before[j].0 != before[k].0);
        } else {
            assert(before[j].0 != keccak(code));
        }
    }
}

/// One more code keeps the order of the hashes.
#[verifier::spinoff_prover]
#[verifier::rlimit(30)]
proof fn lemma_handed_in_turn(
    codes: Seq<Vec<u8>>,
    before: Seq<([u8; 32], Seq<u8>)>,
    at: int,
    entries: Seq<([u8; 32], Seq<u8>)>,
)
    requires
        codes.len() > 0,
        all_handed(codes.drop_last(), before),
        only_codes(codes.drop_last(), before),
        handed_in_turn(codes.drop_last(), before),
        one_more(before, codes.last()@, at, entries),
    ensures
        handed_in_turn(codes, entries),
{
    reveal(all_handed);
    reveal(only_codes);
    reveal(handed_in_turn);
    reveal(one_more);
    let front = codes.drop_last();
    let digest = keccak(codes.last()@);
    assert forall|j: int, k: int| 0 <= j < k < entries.len() implies came_first(
        codes,
        (#[trigger] entries[j]).0,
        (#[trigger] entries[k]).0,
    ) by {
        if k < before.len() {
            assert(came_first(front, before[j].0, before[k].0));
            lemma_came_first(front, codes, before[j].0, before[k].0);
        } else {
            assert(entries[j] == before[j]);
            let i = choose|i: int| 0 <= i < front.len() && (#[trigger] front[i])@ == before[j].1;
            assert(codes[i]@ == before[j].1);
            assert(keccak(codes[i]@) == entries[j].0);
            assert forall|m: int| 0 <= m <= i implies keccak((#[trigger] codes[m])@) != digest by {
                assert(front[m] == codes[m]);
                let other = choose|other: int|
                    0 <= other < before.len() && (#[trigger] before[other]).0 == keccak(front[m]@);
                assert(before[other].0 != digest);
            }
        }
    }
}

/// One more code comes in its place.
proof fn lemma_one_more(before: Seq<([u8; 32], Seq<u8>)>, code: Seq<u8>) -> (at: int)
    requires
        handed_once(before),
    ensures
        one_more(before, code, at, with_code(before, keccak(code), code)),
{
    reveal(one_more);
    reveal(handed_once);
    if exists|k: int| 0 <= k < before.len() && (#[trigger] before[k]).0 == keccak(code) {
        let at = choose|k: int| 0 <= k < before.len() && (#[trigger] before[k]).0 == keccak(code);
        assert forall|k: int| 0 <= k < at implies (#[trigger] before[k]).0 != keccak(code) by {
            assert(before[k].0 != before[at].0);
        }
        lemma_code_replaced(before, keccak(code), code, at);
        at
    } else {
        lemma_code_appended(before, keccak(code), code);
        before.len() as int
    }
}

/// What is handed out of the codes of a witness.
proof fn lemma_handed(codes: Seq<Vec<u8>>)
    ensures
        all_handed(codes, hashed_codes(codes, codes.len())),
        only_codes(codes, hashed_codes(codes, codes.len())),
        last_handed(codes, hashed_codes(codes, codes.len())),
        handed_once(hashed_codes(codes, codes.len())),
        handed_in_turn(codes, hashed_codes(codes, codes.len())),
    decreases codes.len(),
{
    if codes.len() == 0 {
        reveal(all_handed);
        reveal(only_codes);
        reveal(last_handed);
        reveal(handed_once);
        reveal(handed_in_turn);
    } else {
        let front = codes.drop_last();
        let before = hashed_codes(front, front.len());
        let entries = hashed_codes(codes, codes.len());
        lemma_hashed_front(codes, front.len());
        lemma_handed(front);
        let at = lemma_one_more(before, codes.last()@);
        lemma_all_handed(codes, before, at, entries);
        lemma_only_codes(codes, before, at, entries);
        lemma_last_handed(codes, before, at, entries);
        lemma_handed_once(before, codes.last()@, at, entries);
        lemma_handed_in_turn(codes, before, at, entries);
    }
}

/// Every code of a witness is handed out under its own hash. Each hash is handed out once, in the
/// order the hashes first came in, with the last of the codes that hash to it, and nothing else is.
pub proof fn law_codes_by_hash(codes: Seq<Vec<u8>>, entries: Seq<([u8; 32], Seq<u8>)>)
    requires
        entries == hashed_codes(codes, codes.len()),
    ensures
        forall|i: int|
            0 <= i < codes.len() ==> exists|j: int|
                0 <= j < entries.len() && (#[trigger] entries[j]).0 == keccak((#[trigger] codes[i])@),
        forall|j: int|
            0 <= j < entries.len() ==> keccak((#[trigger] entries[j]).1) == entries[j].0,
        forall|j: int|
            0 <= j < entries.len() ==> exists|i: int|
                0 <= i < codes.len() && (#[trigger] codes[i])@ == (#[trigger] entries[j]).1,
        forall|i: int, j: int|
            0 <= i < codes.len() && 0 <= j < entries.len() && keccak((#[trigger] codes[i])@) == (
            #[trigger] entries[j]).0 && (forall|m: int|
                i < m < codes.len() ==> keccak((#[trigger] codes[m])@) != entries[j].0)
                ==> entries[j].1 == codes[i]@,
        forall|j: int, k: int|
            0 <= j < k < entries.len() ==> (#[trigger] entries[j]).0 != (#[trigger] entries[k]).0,
        forall|j: int, k: int|
            0 <= j < k < entries.len() ==> came_first(
                codes,
                (#[trigger] entries[j]).0,
                (#[trigger] entries[k]).0,
            ),
{
    reveal(all_handed);
    reveal(only_codes);
    reveal(last_handed);
    reveal(handed_once);
    reveal(handed_in_turn);
    lemma_handed(codes);
}

/// The bytecode of the first of a witness is that of a witness of those alone.
proof fn lemma_hashed_front(codes: Seq<Vec<u8>>, count: nat)
    requires
        count < codes.len(),
    ensures
        hashed_codes(codes.drop_last(), count) == hashed_codes(codes, count),
    decreases count,
{
    if count > 0 {
        lemma_hashed_front(codes, (count - 1) as nat);
    }
}

/// A hash that first came in ahead of another still did once more codes come in.
proof fn lemma_came_first(front: Seq<Vec<u8>>, codes: Seq<Vec<u8>>, early: [u8; 32], late: [u8; 32])
    requires
        codes.len() > 0,
        front == codes.drop_last(),
        came_first(front, early, late),
    ensures
        came_first(codes, early, late),
{
    let i = choose|i: int|
        0 <= i < front.len() && keccak((#[trigger] front[i])@) == early && forall|m: int|
            0 <= m <= i ==> keccak((#[trigger] front[m])@) != late;
    assert(keccak(codes[i]@) == early);
    assert forall|m: int| 0 <= m <= i implies keccak((#[trigger] codes[m])@) != late by {
        assert(front[m] == codes[m]);
    }
}

} // verus!
