//! The merge table: an insertion-ordered map from a pair of identifiers to the
//! identifier that replaces it, held in a `linked_hash_map::LinkedHashMap`.

use linked_hash_map::LinkedHashMap;
use vstd::prelude::*;

verus! {

/// `linked_hash_map::LinkedHashMap`, taken as an opaque type: of a value
/// nothing is known but what the functions that handle it state.
#[verifier::external_type_specification]
#[verifier::external_body]
#[verifier::reject_recursive_types(K)]
#[verifier::reject_recursive_types(V)]
#[verifier::reject_recursive_types(S)]
pub struct ExLinkedHashMap<K, V, S>(LinkedHashMap<K, V, S>);

/// One merge rule: the pair and the identifier assigned to it.
pub type Rule = ((u16, u16), u16);

/// The rules that a merge table holds, in the order in which it iterates.
pub uninterp spec fn merge_rules(table: LinkedHashMap<(u16, u16), u16>) -> Seq<Rule>;

/// The identifier of the first rule for `pair`, if there is one.
pub open spec fn rule_for(rules: Seq<Rule>, pair: (u16, u16)) -> Option<u16>
    decreases rules.len(),
{
    if rules.len() == 0 {
        None
    } else if rules[0].0 == pair {
        Some(rules[0].1)
    } else {
        rule_for(rules.drop_first(), pair)
    }
}

/// The rules that are not for `pair`, in their order.
pub open spec fn without_pair(rules: Seq<Rule>, pair: (u16, u16)) -> Seq<Rule>
    decreases rules.len(),
{
    if rules.len() == 0 {
        rules
    } else if rules.last().0 == pair {
        without_pair(rules.drop_last(), pair)
    } else {
        without_pair(rules.drop_last(), pair).push(rules.last())
    }
}

/// The rules after recording `pair -> idx`: an earlier rule for the same pair
/// is dropped, and the new rule stands last.
pub open spec fn with_rule(rules: Seq<Rule>, pair: (u16, u16), idx: u16) -> Seq<Rule> {
    without_pair(rules, pair).push((pair, idx))
}

/// The rules are numbered densely from `start` in the order in which they
/// stand, and both parts of a rule are lower than its identifier.
pub open spec fn numbered_from(rules: Seq<Rule>, start: int) -> bool {
    forall|k: int|
        0 <= k < rules.len() ==> {
            &&& (#[trigger] rules[k]).1 == start + k
            &&& rules[k].0.0 < start + k
            &&& rules[k].0.1 < start + k
        }
}

/// No two rules are for the same pair.
pub open spec fn distinct_pairs(rules: Seq<Rule>) -> bool {
    forall|j: int, k: int|
        0 <= j < k < rules.len() ==> (#[trigger] rules[j]).0 != (#[trigger] rules[k]).0
}

/// Recording a rule for a pair that has none appends it.
pub proof fn lemma_with_rule_fresh(rules: Seq<Rule>, pair: (u16, u16), idx: u16)
    requires
        forall|k: int| 0 <= k < rules.len() ==> (#[trigger] rules[k]).0 != pair,
    ensures
        with_rule(rules, pair, idx) == rules.push((pair, idx)),
{
    lemma_without_absent_pair(rules, pair);
}

proof fn lemma_without_absent_pair(rules: Seq<Rule>, pair: (u16, u16))
    requires
        forall|k: int| 0 <= k < rules.len() ==> (#[trigger] rules[k]).0 != pair,
    ensures
        without_pair(rules, pair) == rules,
    decreases rules.len(),
{
    if rules.len() > 0 {
        lemma_without_absent_pair(rules.drop_last(), pair);
        assert(rules.drop_last().push(rules.last()) =~= rules);
    }
}

/// A pair has a rule exactly when some rule of the table is for it, and the
/// identifier found is that of such a rule.
pub proof fn lemma_rule_for(rules: Seq<Rule>, pair: (u16, u16))
    ensures
        match rule_for(rules, pair) {
            Some(idx) => exists|k: int| 0 <= k < rules.len() && #[trigger] rules[k] == (pair, idx),
            None => forall|k: int| 0 <= k < rules.len() ==> (#[trigger] rules[k]).0 != pair,
        },
    decreases rules.len(),
{
    if rules.len() > 0 {
        let rest = rules.drop_first();
        if rules[0].0 == pair {
            assert(rules[0] == (pair, rules[0].1));
        } else {
            lemma_rule_for(rest, pair);
            match rule_for(rest, pair) {
                Some(idx) => {
                    let k = choose|k: int| 0 <= k < rest.len() && #[trigger] rest[k] == (pair, idx);
                    assert(rules[k + 1] == (pair, idx));
                },
                None => {
                    assert forall|k: int| 0 <= k < rules.len() implies (#[trigger] rules[k]).0
                        != pair by {
                        if k > 0 {
                            assert(rest[k - 1] == rules[k]);
                        }
                    }
                },
            }
        }
    }
}

/// `LinkedHashMap::new`: the new table holds no rule.
#[verifier::external_body]
pub(crate) fn new_table() -> (table: LinkedHashMap<(u16, u16), u16>)
    ensures
        merge_rules(table) == Seq::<Rule>::empty(),
{
    LinkedHashMap::new()
}

/// `LinkedHashMap::insert`: a key that is already present keeps one entry,
/// which takes the new value and moves to the end of the iteration order;
/// a new key is appended.
#[verifier::external_body]
pub(crate) fn table_insert(table: &mut LinkedHashMap<(u16, u16), u16>, pair: (u16, u16), idx: u16)
    ensures
        merge_rules(*final(table)) == with_rule(merge_rules(*old(table)), pair, idx),
{
    table.insert(pair, idx);
}

/// `LinkedHashMap::get`: the value stored under `pair`, or `None` when the
/// table has no such key.
#[verifier::external_body]
pub(crate) fn table_get(table: &LinkedHashMap<(u16, u16), u16>, pair: (u16, u16)) -> (idx: Option<u16>)
    ensures
        idx == rule_for(merge_rules(*table), pair),
{
    table.get(&pair).copied()
}

/// `LinkedHashMap::iter`: the entries from the oldest insertion to the newest.
#[verifier::external_body]
pub(crate) fn table_rules(table: &LinkedHashMap<(u16, u16), u16>) -> (rules: Vec<Rule>)
    ensures
        rules@ == merge_rules(*table),
{
    table.iter().map(|(pair, idx)| (*pair, *idx)).collect()
}

} // verus!
