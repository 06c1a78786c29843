//! Collapsing every occurrence of one adjacent pair into a single identifier.

use vstd::prelude::*;

verus! {

/// Whether `pair` stands at positions `i`, `i + 1` of `ids`.
pub open spec fn pair_at(ids: Seq<u16>, i: int, pair: (u16, u16)) -> bool {
    0 <= i && i + 1 < ids.len() && ids[i] == pair.0 && ids[i + 1] == pair.1
}

/// Whether `pair` occurs anywhere in `ids` as two adjacent elements.
pub open spec fn occurs(ids: Seq<u16>, pair: (u16, u16)) -> bool {
    exists|i: int| pair_at(ids, i, pair)
}

/// `ids` with the non-overlapping occurrences of `pair`, taken from the left,
/// each replaced by `idx`.
pub open spec fn merged(ids: Seq<u16>, pair: (u16, u16), idx: u16) -> Seq<u16>
    decreases ids.len(),
{
    if ids.len() < 2 {
        ids
    } else if ids[0] == pair.0 && ids[1] == pair.1 {
        seq![idx] + merged(ids.skip(2), pair, idx)
    } else {
        seq![ids[0]] + merged(ids.skip(1), pair, idx)
    }
}

/// Merging never lengthens a sequence.
pub proof fn lemma_merged_len(ids: Seq<u16>, pair: (u16, u16), idx: u16)
    ensures
        merged(ids, pair, idx).len() <= ids.len(),
    decreases ids.len(),
{
    if ids.len() >= 2 {
        if ids[0] == pair.0 && ids[1] == pair.1 {
            lemma_merged_len(ids.skip(2), pair, idx);
        } else {
            lemma_merged_len(ids.skip(1), pair, idx);
        }
    }
}

/// Merging a pair that occurs shortens the sequence.
pub proof fn lemma_merged_shorter(ids: Seq<u16>, pair: (u16, u16), idx: u16)
    requires
        occurs(ids, pair),
    ensures
        merged(ids, pair, idx).len() < ids.len(),
    decreases ids.len(),
{
    let i = choose|i: int| pair_at(ids, i, pair);
    if ids[0] == pair.0 && ids[1] == pair.1 {
        lemma_merged_len(ids.skip(2), pair, idx);
    } else {
        assert(pair_at(ids.skip(1), i - 1, pair));
        lemma_merged_shorter(ids.skip(1), pair, idx);
    }
}

/// Every element of a merged sequence is the replacement identifier or an
/// element of the sequence that was merged.
pub proof fn lemma_merged_elements(ids: Seq<u16>, pair: (u16, u16), idx: u16)
    ensures
        forall|j: int|
            0 <= j < merged(ids, pair, idx).len() ==> (#[trigger] merged(ids, pair, idx)[j]) == idx
                || ids.contains(merged(ids, pair, idx)[j]),
    decreases ids.len(),
{
    let out = merged(ids, pair, idx);
    if ids.len() >= 2 {
        let step: int = if ids[0] == pair.0 && ids[1] == pair.1 {
            2
        } else {
            1
        };
        let rest = ids.skip(step);
        lemma_merged_elements(rest, pair, idx);
        assert forall|j: int| 0 <= j < out.len() implies (#[trigger] out[j]) == idx
            || ids.contains(out[j]) by {
            if j == 0 {
                assert(out[0] == idx || out[0] == ids[0]);
            } else {
                let x = merged(rest, pair, idx)[j - 1];
                assert(out[j] == x);
                if x != idx {
                    let i = choose|i: int| 0 <= i < rest.len() && rest[i] == x;
                    assert(ids[i + step] == x);
                }
            }
        }
    } else {
        assert forall|j: int| 0 <= j < out.len() implies ids.contains(#[trigger] out[j]) by {
            assert(ids[j] == out[j]);
        }
    }
}

/// An adjacent pair of a merged sequence that does not hold the replacement
/// identifier was an adjacent pair before, and is not the pair that was
/// merged, provided that the replacement identifier is new to the sequence.
pub proof fn lemma_merged_pairs(ids: Seq<u16>, pair: (u16, u16), idx: u16, other: (u16, u16))
    requires
        !ids.contains(idx),
        occurs(merged(ids, pair, idx), other),
        other.0 != idx,
        other.1 != idx,
    ensures
        occurs(ids, other),
        other != pair,
    decreases ids.len(),
{
    let out = merged(ids, pair, idx);
    let at = choose|i: int| pair_at(out, i, other);
    if ids.len() >= 2 {
        let step: int = if ids[0] == pair.0 && ids[1] == pair.1 {
            2
        } else {
            1
        };
        let rest = ids.skip(step);
        let tail = merged(rest, pair, idx);
        assert forall|i: int| 0 <= i < rest.len() implies rest[i] != idx by {
            assert(ids[i + step] == rest[i]);
            assert(ids.contains(rest[i]));
        }
        if at >= 1 {
            assert(pair_at(tail, at - 1, other));
            lemma_merged_pairs(rest, pair, idx, other);
            let i = choose|i: int| pair_at(rest, i, other);
            assert(pair_at(ids, i + step, other));
        } else {
            // the pair starts the output, so the first element was copied
            assert(step == 1);
            assert(out[1] == tail[0]);
            assert(tail[0] == idx || tail[0] == rest[0]);
            assert(pair_at(ids, 0, other));
        }
    }
}

/// After a pair has been merged into an identifier that is new to the
/// sequence, the pair occurs no more.
pub proof fn lemma_merged_removes_pair(ids: Seq<u16>, pair: (u16, u16), idx: u16)
    requires
        !ids.contains(idx),
        pair.0 != idx,
        pair.1 != idx,
    ensures
        !occurs(merged(ids, pair, idx), pair),
{
    if occurs(merged(ids, pair, idx), pair) {
        lemma_merged_pairs(ids, pair, idx, pair);
    }
}

/// Replaces every non-overlapping left-to-right occurrence of `pair` in `ids` by `idx`.
pub fn merge(ids: Vec<u16>, pair: (u16, u16), idx: u16) -> (out: Vec<u16>)
    ensures
        out@ == merged(ids@, pair, idx),
{
    let n: usize = ids.len();
    if n < 2 {
        return ids;
    }
    let mut out: Vec<u16> = Vec::new();
    let mut i: usize = 0;
    assert(ids@.skip(0) =~= ids@);
    assert(out@ + merged(ids@, pair, idx) =~= merged(ids@, pair, idx));
    while i < n - 1
        invariant
            n == ids.len(),
            n >= 2,
            i <= n,
            merged(ids@, pair, idx) == out@ + merged(ids@.skip(i as int), pair, idx),
        decreases n - i,
    {
        let ghost rest = ids@.skip(i as int);
        if ids[i] == pair.0 && ids[i + 1] == pair.1 {
            out.push(idx);
            i += 2;
            assert(rest.skip(2) =~= ids@.skip(i as int));
        } else {
            out.push(ids[i]);
            i += 1;
            assert(rest.skip(1) =~= ids@.skip(i as int));
        }
        assert(merged(ids@, pair, idx) =~= out@ + merged(ids@.skip(i as int), pair, idx));
    }
    if i < n {
        out.push(ids[i]);
        assert(ids@.skip(i as int) =~= seq![ids@[i as int]]);
    } else {
        assert(ids@.skip(i as int) =~= Seq::<u16>::empty());
    }
    assert(out@ =~= merged(ids@, pair, idx));
    out
}

} // verus!
