//! Training: greedy merging of the most frequent pair into fresh identifiers.

use crate::merge::{lemma_merged_elements, lemma_merged_pairs, merge, merged, occurs, pair_at};
use crate::stats::{
    get_most_frequent_pair, lemma_most_frequent_pair, lemma_pair_count_positive,
    most_frequent_pair,
};
use crate::table::{
    distinct_pairs, lemma_with_rule_fresh, merge_rules, new_table, numbered_from, table_insert,
    with_rule, Rule,
};
use linked_hash_map::LinkedHashMap;
use vstd::prelude::*;

verus! {

/// The rules after at most `rounds` further rounds of training on `ids`,
/// where `rules` are those recorded so far and `next` is the identifier that
/// the next rule receives. A round merges the most frequent pair; training
/// stops early once no pair occurs twice.
pub open spec fn trained(ids: Seq<u16>, rules: Seq<Rule>, next: int, rounds: nat) -> Seq<Rule>
    decreases rounds,
{
    if rounds == 0 {
        rules
    } else {
        match most_frequent_pair(ids) {
            None => rules,
            Some(pair) => trained(
                merged(ids, pair, next as u16),
                with_rule(rules, pair, next as u16),
                next + 1,
                (rounds - 1) as nat,
            ),
        }
    }
}

/// Training on identifiers below `vocab_start` numbers its rules densely and
/// increasingly from `vocab_start`, builds each rule from identifiers lower
/// than its own, gives no pair two rules, and records no more rules than
/// there are identifiers between `vocab_start` and `vocab_size`.
pub proof fn lemma_trained_numbering(ids: Seq<u16>, vocab_size: u16, vocab_start: u16)
    requires
        vocab_start <= vocab_size,
        forall|i: int| 0 <= i < ids.len() ==> ids[i] < vocab_start,
    ensures
        ({
            let rules = trained(
                ids,
                Seq::empty(),
                vocab_start as int,
                (vocab_size - vocab_start) as nat,
            );
            &&& numbered_from(rules, vocab_start as int)
            &&& distinct_pairs(rules)
            &&& rules.len() <= vocab_size - vocab_start
        }),
{
    lemma_trained_rounds(
        ids,
        Seq::empty(),
        vocab_start as int,
        vocab_start as int,
        (vocab_size - vocab_start) as nat,
    );
}

proof fn lemma_trained_rounds(ids: Seq<u16>, rules: Seq<Rule>, start: int, next: int, rounds: nat)
    requires
        0 <= start,
        next == start + rules.len(),
        next + rounds <= 65536,
        forall|i: int| 0 <= i < ids.len() ==> ids[i] < next,
        numbered_from(rules, start),
        distinct_pairs(rules),
        forall|k: int| 0 <= k < rules.len() ==> !occurs(ids, (#[trigger] rules[k]).0),
    ensures
        numbered_from(trained(ids, rules, next, rounds), start),
        distinct_pairs(trained(ids, rules, next, rounds)),
        trained(ids, rules, next, rounds).len() <= rules.len() + rounds,
    decreases rounds,
{
    if rounds > 0 {
        if let Some(pair) = most_frequent_pair(ids) {
            let idx = next as u16;
            let out = merged(ids, pair, idx);
            let grown = rules.push((pair, idx));
            lemma_most_frequent_pair(ids);
            lemma_pair_count_positive(ids, pair);
            let at = choose|i: int| pair_at(ids, i, pair);
            assert(ids[at] == pair.0 && ids[at + 1] == pair.1);
            lemma_with_rule_fresh(rules, pair, idx);
            lemma_merged_elements(ids, pair, idx);
            assert forall|i: int| 0 <= i < out.len() implies out[i] < next + 1 by {
                if out[i] != idx {
                    let j = choose|j: int| 0 <= j < ids.len() && ids[j] == out[i];
                }
            }
            assert forall|k: int| 0 <= k < grown.len() implies !occurs(
                out,
                (#[trigger] grown[k]).0,
            ) by {
                let key = grown[k].0;
                if occurs(out, key) {
                    if k < rules.len() {
                        assert(rules[k].0 == key);
                    }
                    lemma_merged_pairs(ids, pair, idx, key);
                }
            }
            lemma_trained_rounds(out, grown, start, next + 1, (rounds - 1) as nat);
        }
    }
}

/// Trains a merge table on `ids_orig`: up to `vocab_size - vocab_start`
/// rounds, the rule of round `i` receiving the identifier `vocab_start + i`.
pub fn calculate_merges(ids_orig: Vec<u16>, vocab_size: u16, vocab_start: u16) -> (merges:
    LinkedHashMap<(u16, u16), u16>)
    requires
        vocab_start <= vocab_size,
    ensures
        merge_rules(merges) == trained(
            ids_orig@,
            Seq::empty(),
            vocab_start as int,
            (vocab_size - vocab_start) as nat,
        ),
{
    let num_merges: u16 = vocab_size - vocab_start;
    let mut ids = ids_orig.clone();
    let mut merges = new_table();
    let mut i: u16 = 0;
    while i < num_merges
        invariant
            i <= num_merges,
            num_merges == vocab_size - vocab_start,
            trained(ids_orig@, Seq::empty(), vocab_start as int, num_merges as nat) == trained(
                ids@,
                merge_rules(merges),
                vocab_start + i,
                (num_merges - i) as nat,
            ),
        decreases num_merges - i,
    {
        match get_most_frequent_pair(ids.clone()) {
            None => {
                return merges;
            },
            Some(pair) => {
                let idx: u16 = vocab_start + i;
                ids = merge(ids, pair, idx);
                table_insert(&mut merges, pair, idx);
                i += 1;
            },
        }
    }
    merges
}

/// Trains a merge table on `ids` whose rules receive the identifiers from
/// 256 on, the byte values below being reserved.
pub fn calculate_merges_default(ids: Vec<u16>, vocab_size: u16) -> (merges: LinkedHashMap<
    (u16, u16),
    u16,
>)
    requires
        vocab_size >= 256,
    ensures
        merge_rules(merges) == trained(ids@, Seq::empty(), 256, (vocab_size - 256) as nat),
{
    calculate_merges(ids, vocab_size, 256)
}

} // verus!
