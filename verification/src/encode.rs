//! Encoding: applying the rules of a merge table to new text, the rule with
//! the lowest identifier first.

use crate::merge::{lemma_merged_shorter, merge, merged, occurs};
use crate::stats::{
    get_stats, lemma_pair_count_positive, pair_counts, pair_le, PairStats,
};
use crate::table::{merge_rules, rule_for, table_get, Rule};
use crate::text::{byte_ids, convert_to_bytes};
use linked_hash_map::LinkedHashMap;
use vstd::prelude::*;

verus! {

/// `pair` is one of `present` and `rules` holds a rule for it.
pub open spec fn applicable(present: Set<(u16, u16)>, rules: Seq<Rule>, pair: (u16, u16)) -> bool {
    present.contains(pair) && rule_for(rules, pair) is Some
}

/// The rule of `pair` is applied before that of `other`: its identifier is
/// lower, or the same and `pair` is not the greater pair.
pub open spec fn precedes(rules: Seq<Rule>, pair: (u16, u16), other: (u16, u16)) -> bool {
    let a = rule_for(rules, pair).unwrap();
    let b = rule_for(rules, other).unwrap();
    a < b || (a == b && pair_le(pair, other))
}

/// `pair` is the applicable pair whose rule comes first.
pub open spec fn is_first_applicable(
    present: Set<(u16, u16)>,
    rules: Seq<Rule>,
    pair: (u16, u16),
) -> bool {
    applicable(present, rules, pair) && forall|other: (u16, u16)|
        applicable(present, rules, other) ==> precedes(rules, pair, other)
}

/// The applicable pair whose rule comes first, if any pair is applicable.
pub open spec fn first_applicable(present: Set<(u16, u16)>, rules: Seq<Rule>) -> Option<
    (u16, u16),
> {
    if exists|pair: (u16, u16)| is_first_applicable(present, rules, pair) {
        Some(choose|pair: (u16, u16)| is_first_applicable(present, rules, pair))
    } else {
        None
    }
}

/// At most one pair is the first applicable one.
pub proof fn lemma_first_applicable_unique(
    present: Set<(u16, u16)>,
    rules: Seq<Rule>,
    a: (u16, u16),
    b: (u16, u16),
)
    requires
        is_first_applicable(present, rules, a),
        is_first_applicable(present, rules, b),
    ensures
        a == b,
{
    assert(precedes(rules, a, b));
    assert(precedes(rules, b, a));
}

/// Among the pairs of `stats` for which `merges` holds a rule, selects the
/// one with the lowest identifier, the lexicographically smallest one among
/// equals; `None` when the table holds a rule for none of them.
pub fn get_pair_with_lowest_value(stats: PairStats, merges: &LinkedHashMap<(u16, u16), u16>) -> (first:
    Option<(u16, u16)>)
    ensures
        first == first_applicable(stats@.dom(), merge_rules(*merges)),
        match first {
            Some(pair) => is_first_applicable(stats@.dom(), merge_rules(*merges), pair),
            None => forall|pair: (u16, u16)| !applicable(stats@.dom(), merge_rules(*merges), pair),
        },
{
    let ghost present = stats@.dom();
    let ghost rules = merge_rules(*merges);
    let pairs = stats.pairs();
    assert forall|k: int| 0 <= k < pairs@.len() implies present.contains(#[trigger] pairs@[k]) by {
        assert(pairs@.contains(pairs@[k]));
    }
    let mut found: bool = false;
    let mut min: u16 = u16::MAX;
    let mut min_pair: (u16, u16) = (0, 0);
    let mut j: usize = 0;
    while j < pairs.len()
        invariant
            j <= pairs.len(),
            rules == merge_rules(*merges),
            forall|k: int| 0 <= k < pairs@.len() ==> present.contains(#[trigger] pairs@[k]),
            found ==> applicable(present, rules, min_pair) && rule_for(rules, min_pair) == Some(
                min,
            ),
            found ==> forall|k: int|
                0 <= k < j && applicable(present, rules, #[trigger] pairs@[k]) ==> precedes(
                    rules,
                    min_pair,
                    pairs@[k],
                ),
            !found ==> forall|k: int|
                0 <= k < j ==> !applicable(present, rules, #[trigger] pairs@[k]),
        decreases pairs.len() - j,
    {
        let pair = pairs[j];
        match table_get(merges, pair) {
            Some(code) => {
                if !found || code < min || (code == min && (pair.0 < min_pair.0 || (pair.0
                    == min_pair.0 && pair.1 <= min_pair.1))) {
                    found = true;
                    min = code;
                    min_pair = pair;
                }
            },
            None => {},
        }
        j += 1;
    }
    proof {
        assert forall|other: (u16, u16)| applicable(present, rules, other) implies found
            && precedes(rules, min_pair, other) by {
            assert(pairs@.contains(other));
            let k = choose|k: int| 0 <= k < pairs@.len() && pairs@[k] == other;
            assert(applicable(present, rules, pairs@[k]));
        }
        if found {
            assert(is_first_applicable(present, rules, min_pair));
            lemma_first_applicable_unique(
                present,
                rules,
                min_pair,
                first_applicable(present, rules).unwrap(),
            );
        }
    }
    if found {
        Some(min_pair)
    } else {
        None
    }
}

/// The token sequence that encoding arrives at from `ids`: as long as a pair
/// that occurs has a rule, the first applicable one is merged.
pub open spec fn encoded(ids: Seq<u16>, rules: Seq<Rule>) -> Seq<u16>
    decreases ids.len(),
    via encoded_decreases
{
    match first_applicable(pair_counts(ids).dom(), rules) {
        None => ids,
        Some(pair) => encoded(merged(ids, pair, rule_for(rules, pair).unwrap()), rules),
    }
}

#[via_fn]
proof fn encoded_decreases(ids: Seq<u16>, rules: Seq<Rule>) {
    let present = pair_counts(ids).dom();
    if let Some(pair) = first_applicable(present, rules) {
        assert(is_first_applicable(present, rules, pair));
        lemma_pair_count_positive(ids, pair);
        lemma_merged_shorter(ids, pair, rule_for(rules, pair).unwrap());
    }
}

/// Encoding never lengthens a sequence, and it ends where no pair that
/// occurs has a rule, so that encoding the result again changes nothing.
pub proof fn lemma_encoded_final(ids: Seq<u16>, rules: Seq<Rule>)
    ensures
        encoded(ids, rules).len() <= ids.len(),
        first_applicable(pair_counts(encoded(ids, rules)).dom(), rules) is None,
        encoded(encoded(ids, rules), rules) == encoded(ids, rules),
    decreases ids.len(),
{
    let present = pair_counts(ids).dom();
    if let Some(pair) = first_applicable(present, rules) {
        let idx = rule_for(rules, pair).unwrap();
        assert(is_first_applicable(present, rules, pair));
        lemma_pair_count_positive(ids, pair);
        lemma_merged_shorter(ids, pair, idx);
        lemma_encoded_final(merged(ids, pair, idx), rules);
    }
}

/// Encodes `input` with the rules of `merges`.
pub fn encode(input: &str, merges: LinkedHashMap<(u16, u16), u16>) -> (tokens: Vec<u16>)
    ensures
        tokens@ == encoded(byte_ids(input@), merge_rules(merges)),
{
    let mut tokens = convert_to_bytes(input);
    let ghost rules = merge_rules(merges);
    while tokens.len() > 1
        invariant
            rules == merge_rules(merges),
            encoded(byte_ids(input@), rules) == encoded(tokens@, rules),
        decreases tokens.len(),
    {
        let stats = get_stats(tokens.clone());
        match get_pair_with_lowest_value(stats, &merges) {
            None => {
                return tokens;
            },
            Some(pair) => {
                proof {
                    lemma_pair_count_positive(tokens@, pair);
                    lemma_merged_shorter(tokens@, pair, rule_for(rules, pair).unwrap());
                }
                let idx: u16 = table_get(&merges, pair).unwrap();
                tokens = merge(tokens, pair, idx);
            },
        }
    }
    proof {
        assert forall|pair: (u16, u16)| !pair_counts(tokens@).dom().contains(pair) by {
            lemma_pair_count_positive(tokens@, pair);
            if occurs(tokens@, pair) {
            }
        }
    }
    tokens
}

} // verus!
