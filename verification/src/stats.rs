//! Occurrence counts of adjacent pairs, and the choice of the most frequent pair.

use crate::merge::{occurs, pair_at};
use std::collections::HashMap;
use vstd::prelude::*;
use vstd::std_specs::iter::IteratorSpec;

verus! {

broadcast use vstd::std_specs::hash::group_hash_axioms;

/// How many positions of `ids` hold `pair` as two adjacent elements.
pub open spec fn pair_count(ids: Seq<u16>, pair: (u16, u16)) -> nat
    decreases ids.len(),
{
    if ids.len() < 2 {
        0
    } else {
        let before = pair_count(ids.drop_last(), pair);
        if pair_at(ids, ids.len() - 2, pair) {
            before + 1
        } else {
            before
        }
    }
}

/// The pair statistics of `ids`: every adjacent pair that occurs, with its count.
pub open spec fn pair_counts(ids: Seq<u16>) -> Map<(u16, u16), nat> {
    Map::new(|pair: (u16, u16)| pair_count(ids, pair) > 0, |pair: (u16, u16)| pair_count(ids, pair))
}

/// A pair is counted at most once per position that can start it.
pub proof fn lemma_pair_count_bound(ids: Seq<u16>, pair: (u16, u16))
    ensures
        pair_count(ids, pair) <= ids.len(),
        ids.len() >= 1 ==> pair_count(ids, pair) <= ids.len() - 1,
    decreases ids.len(),
{
    if ids.len() >= 2 {
        lemma_pair_count_bound(ids.drop_last(), pair);
    }
}

/// A pair has a positive count exactly when it occurs.
pub proof fn lemma_pair_count_positive(ids: Seq<u16>, pair: (u16, u16))
    ensures
        pair_count(ids, pair) > 0 <==> occurs(ids, pair),
    decreases ids.len(),
{
    if ids.len() >= 2 {
        let init = ids.drop_last();
        lemma_pair_count_positive(init, pair);
        if occurs(ids, pair) {
            let i = choose|i: int| pair_at(ids, i, pair);
            if i != ids.len() - 2 {
                assert(pair_at(init, i, pair));
            }
        }
        if pair_count(ids, pair) > 0 && !pair_at(ids, ids.len() - 2, pair) {
            let i = choose|i: int| pair_at(init, i, pair);
            assert(pair_at(ids, i, pair));
        }
    } else {
        assert(forall|i: int| !pair_at(ids, i, pair));
    }
}

/// The key under which a pair is stored.
spec fn pair_code(pair: (u16, u16)) -> u32 {
    (pair.0 as u32 * 65536 + pair.1 as u32) as u32
}

/// The pair that a key stands for.
spec fn code_pair(code: u32) -> (u16, u16) {
    ((code / 65536) as u16, (code % 65536) as u16)
}

proof fn lemma_codes(pair: (u16, u16), code: u32)
    ensures
        code_pair(pair_code(pair)) == pair,
        pair_code(code_pair(code)) == code,
{
}

fn encode_pair(pair: (u16, u16)) -> (code: u32)
    ensures
        code == pair_code(pair),
{
    pair.0 as u32 * 65536 + pair.1 as u32
}

fn decode_pair(code: u32) -> (pair: (u16, u16))
    ensures
        pair == code_pair(code),
{
    ((code / 65536) as u16, (code % 65536) as u16)
}

/// Pair statistics of a token sequence.
pub struct PairStats {
    counts: HashMap<u32, usize>,
}

impl View for PairStats {
    type V = Map<(u16, u16), nat>;

    closed spec fn view(&self) -> Map<(u16, u16), nat> {
        Map::new(
            |pair: (u16, u16)| self.counts@.contains_key(pair_code(pair)),
            |pair: (u16, u16)| self.counts@[pair_code(pair)] as nat,
        )
    }
}

impl PairStats {
    /// The number of occurrences recorded for `pair`; zero when it is absent.
    pub fn count(&self, pair: (u16, u16)) -> (n: usize)
        ensures
            n == (if self@.contains_key(pair) { self@[pair] } else { 0 }),
    {
        match self.counts.get(&encode_pair(pair)) {
            Some(n) => *n,
            None => 0,
        }
    }

    /// The recorded pairs, each once, in no particular order.
    pub fn pairs(&self) -> (pairs: Vec<(u16, u16)>)
        ensures
            pairs@.no_duplicates(),
            forall|pair: (u16, u16)| pairs@.contains(pair) <==> self@.contains_key(pair),
    {
        let mut pairs: Vec<(u16, u16)> = Vec::new();
        for code in it: self.counts.keys()
            invariant
                pairs@.len() == it.index(),
                it.seq() == self.counts.keys().remaining(),
                forall|j: int| 0 <= j < pairs@.len() ==> pairs@[j] == code_pair(*it.seq()[j]),
        {
            pairs.push(decode_pair(*code));
        }
        proof {
            let codes = self.counts.keys().remaining().unref();
            assert(codes.len() == pairs@.len());
            assert(codes.to_set() == self.counts@.dom());
            assert forall|pair: (u16, u16)| pairs@.contains(pair) implies self@.contains_key(
                pair,
            ) by {
                let j = choose|j: int| 0 <= j < pairs@.len() && pairs@[j] == pair;
                lemma_codes(pair, codes[j]);
                assert(codes.to_set().contains(codes[j]));
            }
            assert forall|pair: (u16, u16)| self@.contains_key(pair) implies pairs@.contains(
                pair,
            ) by {
                let code = pair_code(pair);
                lemma_codes(pair, code);
                assert(codes.to_set().contains(code));
                let j = choose|j: int| 0 <= j < codes.len() && codes[j] == code;
                assert(pairs@[j] == pair);
            }
        }
        pairs
    }

    /// Whether no pair is recorded.
    pub fn is_empty(&self) -> (empty: bool)
        ensures
            empty <==> self@ == (Map::<(u16, u16), nat>::empty()),
    {
        let empty = self.counts.is_empty();
        proof {
            if empty {
                assert(self.counts@.dom() =~= Set::empty());
                assert(self@ =~= Map::<(u16, u16), nat>::empty());
            } else {
                let code = choose|code: u32| self.counts@.contains_key(code);
                lemma_codes((0, 0), code);
                assert(self@.contains_key(code_pair(code)));
            }
        }
        empty
    }
}

/// Counts the occurrences of every adjacent pair of `ids`.
pub fn get_stats(ids: Vec<u16>) -> (stats: PairStats)
    ensures
        stats@ == pair_counts(ids@),
{
    let mut counts: HashMap<u32, usize> = HashMap::new();
    let n: usize = ids.len();
    if n < 2 {
        let stats = PairStats { counts };
        assert(stats@ =~= pair_counts(ids@));
        return stats;
    }
    let mut i: usize = 1;
    while i < n
        invariant
            1 <= i <= n,
            n == ids.len(),
            forall|code: u32| #[trigger]
                counts@.contains_key(code) <==> pair_count(ids@.take(i as int), code_pair(code))
                    > 0,
            forall|code: u32| #[trigger]
                counts@.contains_key(code) ==> counts@[code] == pair_count(
                    ids@.take(i as int),
                    code_pair(code),
                ),
        decreases n - i,
    {
        let pair = (ids[i - 1], ids[i]);
        let code: u32 = encode_pair(pair);
        let ghost prefix = ids@.take(i as int);
        let ghost next = ids@.take(i + 1);
        proof {
            lemma_codes(pair, code);
            assert(next.drop_last() =~= prefix);
            lemma_pair_count_bound(prefix, pair);
            assert forall|c: u32| c != code implies !pair_at(next, i - 1, code_pair(c)) by {
                lemma_codes(pair, c);
            }
        }
        let seen: usize = match counts.get(&code) {
            Some(k) => *k,
            None => 0,
        };
        counts.insert(code, seen + 1);
        i += 1;
    }
    let stats = PairStats { counts };
    proof {
        assert(ids@.take(i as int) =~= ids@);
        assert forall|pair: (u16, u16)| stats@.contains_key(pair) <==> pair_counts(
            ids@,
        ).contains_key(pair) by {
            lemma_codes(pair, 0);
            assert(stats.counts@.contains_key(pair_code(pair)) <==> pair_count(ids@, pair) > 0);
        }
        assert forall|pair: (u16, u16)| stats@.contains_key(pair) implies stats@[pair]
            == pair_counts(ids@)[pair] by {
            lemma_codes(pair, 0);
            assert(stats.counts@.contains_key(pair_code(pair)));
        }
        assert(stats@ =~= pair_counts(ids@));
    }
    stats
}

/// The lexicographic order on pairs, by which ties between equal counts are broken.
pub open spec fn pair_le(a: (u16, u16), b: (u16, u16)) -> bool {
    a.0 < b.0 || (a.0 == b.0 && a.1 <= b.1)
}

/// `pair` is chosen before `other`: it occurs more often, or as often and is
/// not the greater pair.
pub open spec fn outranks(ids: Seq<u16>, pair: (u16, u16), other: (u16, u16)) -> bool {
    pair_count(ids, other) < pair_count(ids, pair) || (pair_count(ids, other) == pair_count(
        ids,
        pair,
    ) && pair_le(pair, other))
}

/// `pair` has the maximum count in `ids` and is the smallest pair that has it.
pub open spec fn is_most_frequent(ids: Seq<u16>, pair: (u16, u16)) -> bool {
    forall|other: (u16, u16)| outranks(ids, pair, other)
}

/// `pair` is the pair that training merges next: the most frequent one,
/// occurring at least twice.
pub open spec fn is_merge_candidate(ids: Seq<u16>, pair: (u16, u16)) -> bool {
    is_most_frequent(ids, pair) && pair_count(ids, pair) >= 2
}

/// The most frequent pair of `ids` if it occurs at least twice.
pub open spec fn most_frequent_pair(ids: Seq<u16>) -> Option<(u16, u16)> {
    if exists|pair: (u16, u16)| is_merge_candidate(ids, pair) {
        Some(choose|pair: (u16, u16)| is_merge_candidate(ids, pair))
    } else {
        None
    }
}

/// At most one pair is the most frequent one.
pub proof fn lemma_most_frequent_unique(ids: Seq<u16>, a: (u16, u16), b: (u16, u16))
    requires
        is_most_frequent(ids, a),
        is_most_frequent(ids, b),
    ensures
        a == b,
{
    assert(outranks(ids, a, b));
    assert(outranks(ids, b, a));
}

/// What `most_frequent_pair` selects, and when it selects nothing.
pub proof fn lemma_most_frequent_pair(ids: Seq<u16>)
    ensures
        match most_frequent_pair(ids) {
            Some(pair) => is_most_frequent(ids, pair) && pair_count(ids, pair) >= 2,
            None => forall|pair: (u16, u16)| pair_count(ids, pair) < 2,
        },
{
    if most_frequent_pair(ids) is None {
        assert forall|pair: (u16, u16)| pair_count(ids, pair) < 2 by {
            if pair_count(ids, pair) >= 2 {
                lemma_top_pair_exists(ids, pair);
            }
        }
    }
}

/// A sequence of fewer than two identifiers has empty pair statistics and
/// no most frequent pair.
pub proof fn lemma_short_sequence(ids: Seq<u16>)
    requires
        ids.len() <= 1,
    ensures
        pair_counts(ids) == (Map::<(u16, u16), nat>::empty()),
        most_frequent_pair(ids) is None,
{
    assert(pair_counts(ids) =~= Map::<(u16, u16), nat>::empty());
    lemma_no_pair_below_two(ids);
}

/// No pair is selected exactly when no pair occurs twice.
pub proof fn lemma_no_pair_below_two(ids: Seq<u16>)
    ensures
        most_frequent_pair(ids) is None <==> forall|pair: (u16, u16)| pair_count(ids, pair) < 2,
{
    lemma_most_frequent_pair(ids);
}

/// A pair that occurs at least twice gives rise to a merge candidate.
proof fn lemma_top_pair_exists(ids: Seq<u16>, pair: (u16, u16))
    requires
        pair_count(ids, pair) >= 2,
    ensures
        exists|top: (u16, u16)| is_merge_candidate(ids, top),
{
    lemma_pair_count_bound(ids, pair);
    let last = (ids.len() - 2) as nat;
    let top = top_pair_upto(ids, last);
    lemma_top_pair_upto(ids, last);
    let at = choose|i: int| 0 <= i <= last && top == pair_of(ids, i);
    assert(pair_at(ids, at, top));
    lemma_pair_count_positive(ids, top);
    assert forall|other: (u16, u16)| outranks(ids, top, other) by {
        lemma_pair_count_positive(ids, other);
        if occurs(ids, other) {
            let i = choose|i: int| pair_at(ids, i, other);
            assert(outranks(ids, top, pair_of(ids, i)));
        }
    }
    assert(outranks(ids, top, pair));
    assert(is_merge_candidate(ids, top));
}

/// The pair that stands at positions `i`, `i + 1` of `ids`.
spec fn pair_of(ids: Seq<u16>, i: int) -> (u16, u16) {
    (ids[i], ids[i + 1])
}

/// Among the pairs that stand at positions `0..=n` of `ids`, the one that
/// outranks the others.
spec fn top_pair_upto(ids: Seq<u16>, n: nat) -> (u16, u16)
    decreases n,
{
    if n == 0 {
        pair_of(ids, 0)
    } else {
        let prev = top_pair_upto(ids, (n - 1) as nat);
        if outranks(ids, prev, pair_of(ids, n as int)) {
            prev
        } else {
            pair_of(ids, n as int)
        }
    }
}

proof fn lemma_top_pair_upto(ids: Seq<u16>, n: nat)
    requires
        n + 1 < ids.len(),
    ensures
        exists|i: int| 0 <= i <= n && top_pair_upto(ids, n) == #[trigger] pair_of(ids, i),
        forall|i: int|
            0 <= i <= n ==> outranks(ids, top_pair_upto(ids, n), #[trigger] pair_of(ids, i)),
    decreases n,
{
    let top = top_pair_upto(ids, n);
    if n == 0 {
        assert(top == pair_of(ids, 0));
    } else {
        let prev = top_pair_upto(ids, (n - 1) as nat);
        lemma_top_pair_upto(ids, (n - 1) as nat);
        if outranks(ids, prev, pair_of(ids, n as int)) {
            let i = choose|i: int| 0 <= i <= n - 1 && prev == pair_of(ids, i);
            assert(top == pair_of(ids, i));
        } else {
            assert(top == pair_of(ids, n as int));
            assert forall|i: int| 0 <= i <= n implies outranks(
                ids,
                top,
                #[trigger] pair_of(ids, i),
            ) by {
                if i < n {
                    assert(outranks(ids, prev, pair_of(ids, i)));
                }
            }
        }
    }
}

/// Selects the pair with the highest occurrence count, the lexicographically
/// smallest one among equals, provided that it occurs at least twice.
pub fn get_most_frequent_pair(ids: Vec<u16>) -> (best: Option<(u16, u16)>)
    ensures
        best == most_frequent_pair(ids@),
        match best {
            Some(pair) => is_most_frequent(ids@, pair) && pair_count(ids@, pair) >= 2,
            None => forall|pair: (u16, u16)| pair_count(ids@, pair) < 2,
        },
{
    let ghost seq = ids@;
    let stats = get_stats(ids);
    let pairs = stats.pairs();
    assert forall|k: int| 0 <= k < pairs@.len() implies pair_count(seq, #[trigger] pairs@[k])
        > 0 by {
        assert(pairs@.contains(pairs@[k]));
    }
    let mut top: (u16, u16) = (0, 0);
    let mut top_count: usize = 0;
    let mut j: usize = 0;
    while j < pairs.len()
        invariant
            j <= pairs.len(),
            stats@ == pair_counts(seq),
            forall|k: int| 0 <= k < pairs@.len() ==> pair_count(seq, #[trigger] pairs@[k]) > 0,
            j == 0 ==> top_count == 0,
            j > 0 ==> top_count == pair_count(seq, top),
            forall|k: int| 0 <= k < j ==> outranks(seq, top, #[trigger] pairs@[k]),
        decreases pairs.len() - j,
    {
        let pair = pairs[j];
        let count: usize = stats.count(pair);
        assert(stats@.contains_key(pair));
        if count > top_count || (count == top_count && (pair.0 < top.0 || (pair.0 == top.0
            && pair.1 <= top.1))) {
            top = pair;
            top_count = count;
        }
        j += 1;
    }
    proof {
        assert forall|other: (u16, u16)| pair_count(seq, other) > 0 implies j > 0 && outranks(
            seq,
            top,
            other,
        ) by {
            assert(stats@.contains_key(other));
            assert(pairs@.contains(other));
            let k = choose|k: int| 0 <= k < pairs@.len() && pairs@[k] == other;
            assert(outranks(seq, top, pairs@[k]));
        }
        lemma_most_frequent_pair(seq);
        if top_count >= 2 {
            assert(is_merge_candidate(seq, top));
            lemma_most_frequent_unique(seq, top, most_frequent_pair(seq).unwrap());
        } else {
            assert forall|pair: (u16, u16)| pair_count(seq, pair) < 2 by {
                if pair_count(seq, pair) > 0 {
                    assert(outranks(seq, top, pair));
                }
            }
        }
    }
    if top_count >= 2 {
        Some(top)
    } else {
        None
    }
}

} // verus!
