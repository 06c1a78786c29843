//! The vocabulary: the byte payload of every identifier, derived from a merge
//! table, and decoding of token sequences through it.

use crate::table::{merge_rules, numbered_from, table_rules, Rule};
use crate::text::{from_utf8_lossy, text_of};
use linked_hash_map::LinkedHashMap;
use vstd::prelude::*;

verus! {

/// The payload that a vocabulary holds for each identifier.
pub uninterp spec fn vocab_payloads(vocab: LinkedHashMap<u16, Vec<u8>>) -> Map<u16, Seq<u8>>;

/// `LinkedHashMap::new`: the new vocabulary holds no entry.
#[verifier::external_body]
pub(crate) fn new_vocab() -> (vocab: LinkedHashMap<u16, Vec<u8>>)
    ensures
        vocab_payloads(vocab) == (Map::<u16, Seq<u8>>::empty()),
{
    LinkedHashMap::new()
}

/// `LinkedHashMap::insert`: afterwards `id` maps to `payload`, and every
/// other identifier maps to what it mapped to before.
#[verifier::external_body]
pub(crate) fn vocab_insert(vocab: &mut LinkedHashMap<u16, Vec<u8>>, id: u16, payload: Vec<u8>)
    ensures
        vocab_payloads(*final(vocab)) == vocab_payloads(*old(vocab)).insert(id, payload@),
{
    vocab.insert(id, payload);
}

/// `LinkedHashMap::get`: the payload stored under `id`, or `None` when the
/// vocabulary has no such key.
#[verifier::external_body]
pub(crate) fn vocab_get<'a>(vocab: &'a LinkedHashMap<u16, Vec<u8>>, id: u16) -> (payload: Option<
    &'a Vec<u8>,
>)
    ensures
        payload is Some <==> vocab_payloads(*vocab).contains_key(id),
        payload is Some ==> payload.unwrap()@ == vocab_payloads(*vocab)[id],
{
    vocab.get(&id)
}

/// The vocabulary before any merge: every byte value maps to itself.
pub open spec fn base_vocabulary() -> Map<u16, Seq<u8>> {
    Map::new(|id: u16| id < 256, |id: u16| seq![id as u8])
}

/// Every byte value has itself as its payload.
pub open spec fn holds_bytes(payloads: Map<u16, Seq<u8>>) -> bool {
    forall|id: u16|
        id < 256 ==> #[trigger] payloads.contains_key(id) && payloads[id] =~= seq![id as u8]
}

/// The vocabulary of a merge table: the base vocabulary, then for each rule
/// in order the payloads of its two parts joined under its identifier.
pub open spec fn vocabulary_of(rules: Seq<Rule>) -> Map<u16, Seq<u8>>
    decreases rules.len(),
{
    if rules.len() == 0 {
        base_vocabulary()
    } else {
        let before = vocabulary_of(rules.drop_last());
        let rule = rules.last();
        before.insert(rule.1, before[rule.0.0] + before[rule.0.1])
    }
}

/// `id` is a byte value or the identifier of one of the first `k` rules.
pub open spec fn defined_before(rules: Seq<Rule>, k: int, id: u16) -> bool {
    id < 256 || exists|j: int| 0 <= j < k && j < rules.len() && #[trigger] rules[j].1 == id
}

/// Both parts of every rule are defined before the rule itself.
pub open spec fn well_ordered(rules: Seq<Rule>) -> bool {
    forall|k: int|
        0 <= k < rules.len() ==> defined_before(rules, k, (#[trigger] rules[k]).0.0)
            && defined_before(rules, k, rules[k].0.1)
}

/// The vocabulary of a table holds the byte values and the identifiers of its rules.
pub proof fn lemma_vocabulary_domain(rules: Seq<Rule>, id: u16)
    ensures
        vocabulary_of(rules).contains_key(id) <==> defined_before(rules, rules.len() as int, id),
    decreases rules.len(),
{
    if rules.len() > 0 {
        let init = rules.drop_last();
        lemma_vocabulary_domain(init, id);
        if defined_before(init, init.len() as int, id) && id >= 256 {
            let j = choose|j: int| 0 <= j < init.len() && #[trigger] init[j].1 == id;
            assert(rules[j].1 == id);
        }
        if defined_before(rules, rules.len() as int, id) && id >= 256 && rules.last().1 != id {
            let j = choose|j: int| 0 <= j < rules.len() && #[trigger] rules[j].1 == id;
            assert(init[j].1 == id);
        }
    }
}

/// The vocabulary of the empty table is the base vocabulary: the 256 byte
/// values, each with itself as its only byte.
pub proof fn lemma_empty_table_vocabulary()
    ensures
        vocabulary_of(Seq::empty()) == base_vocabulary(),
        forall|id: u16| base_vocabulary().contains_key(id) <==> id < 256,
        holds_bytes(base_vocabulary()),
{
}

/// In the vocabulary of a table numbered from 256, every byte value keeps
/// its single-byte payload, and the payload of every rule's identifier is
/// the payload of its first part followed by that of its second. Such a
/// table is well ordered.
pub proof fn lemma_numbered_vocabulary(rules: Seq<Rule>)
    requires
        numbered_from(rules, 256),
    ensures
        well_ordered(rules),
        holds_bytes(vocabulary_of(rules)),
        forall|k: int|
            0 <= k < rules.len() ==> vocabulary_of(rules)[(#[trigger] rules[k]).1] == vocabulary_of(
                rules,
            )[rules[k].0.0] + vocabulary_of(rules)[rules[k].0.1],
    decreases rules.len(),
{
    assert forall|k: int| 0 <= k < rules.len() implies defined_before(
        rules,
        k,
        (#[trigger] rules[k]).0.0,
    ) && defined_before(rules, k, rules[k].0.1) by {
        let (p0, p1) = rules[k].0;
        if p0 >= 256 {
            assert(rules[p0 - 256].1 == p0);
        }
        if p1 >= 256 {
            assert(rules[p1 - 256].1 == p1);
        }
    }
    if rules.len() > 0 {
        let init = rules.drop_last();
        assert forall|k: int| 0 <= k < init.len() implies init[k] == rules[k] by {}
        lemma_numbered_vocabulary(init);
        assert forall|id: u16| id < 256 implies #[trigger] vocabulary_of(rules).contains_key(id)
            && vocabulary_of(rules)[id] =~= seq![id as u8] by {
            assert(vocabulary_of(init).contains_key(id));
        }
        assert forall|k: int| 0 <= k < rules.len() implies vocabulary_of(rules)[(
            #[trigger] rules[k]).1] == vocabulary_of(rules)[rules[k].0.0] + vocabulary_of(
            rules,
        )[rules[k].0.1] by {
            if k < init.len() {
                assert(init[k] == rules[k]);
            }
        }
    }
}

/// The bytes that a token sequence stands for: the payloads of its
/// identifiers, joined in order.
pub open spec fn expand(ids: Seq<u16>, payloads: Map<u16, Seq<u8>>) -> Seq<u8>
    decreases ids.len(),
{
    if ids.len() == 0 {
        Seq::empty()
    } else {
        expand(ids.drop_last(), payloads) + payloads[ids.last()]
    }
}

/// Every identifier of `ids` has a payload.
pub open spec fn covers(payloads: Map<u16, Seq<u8>>, ids: Seq<u16>) -> bool {
    forall|i: int| 0 <= i < ids.len() ==> payloads.contains_key(#[trigger] ids[i])
}

fn append(buffer: &mut Vec<u8>, bytes: &Vec<u8>)
    ensures
        final(buffer)@ == old(buffer)@ + bytes@,
{
    let mut i: usize = 0;
    while i < bytes.len()
        invariant
            i <= bytes.len(),
            buffer@ == old(buffer)@ + bytes@.take(i as int),
        decreases bytes.len() - i,
    {
        buffer.push(bytes[i]);
        i += 1;
        assert(bytes@.take(i as int) =~= bytes@.take(i - 1).push(bytes@[i - 1]));
    }
    assert(bytes@.take(i as int) =~= bytes@);
}

/// Tells whether both parts of every rule of `merges` are defined before the
/// rule, which is what `generate_vocab` asks of a table.
pub fn is_well_ordered(merges: &LinkedHashMap<(u16, u16), u16>) -> (ok: bool)
    ensures
        ok == well_ordered(merge_rules(*merges)),
{
    let rules = table_rules(merges);
    let mut defined: Vec<bool> = Vec::new();
    let mut id: usize = 0;
    while id < 65536
        invariant
            id <= 65536,
            defined@.len() == id,
            forall|i: int| 0 <= i < id ==> defined@[i] == (i < 256),
        decreases 65536 - id,
    {
        defined.push(id < 256);
        id += 1;
    }
    let mut k: usize = 0;
    while k < rules.len()
        invariant
            k <= rules.len(),
            rules@ == merge_rules(*merges),
            defined@.len() == 65536,
            forall|i: u16| defined@[i as int] == defined_before(rules@, k as int, i),
            forall|j: int|
                0 <= j < k ==> defined_before(rules@, j, (#[trigger] rules@[j]).0.0)
                    && defined_before(rules@, j, rules@[j].0.1),
        decreases rules.len() - k,
    {
        let ((p0, p1), idx) = rules[k];
        if !defined[p0 as usize] || !defined[p1 as usize] {
            assert(!(defined_before(rules@, k as int, rules@[k as int].0.0) && defined_before(
                rules@,
                k as int,
                rules@[k as int].0.1,
            )));
            return false;
        }
        defined.set(idx as usize, true);
        k += 1;
        assert forall|i: u16| defined@[i as int] == defined_before(rules@, k as int, i) by {
            if defined_before(rules@, k as int, i) && i >= 256 {
                let j = choose|j: int| 0 <= j < k && #[trigger] rules@[j].1 == i;
                if j < k - 1 {
                    assert(defined_before(rules@, k - 1, i));
                }
            }
            if defined_before(rules@, k - 1, i) && i >= 256 {
                let j = choose|j: int| 0 <= j < k - 1 && #[trigger] rules@[j].1 == i;
                assert(rules@[j].1 == i);
            }
            if i == idx {
                assert(rules@[k - 1].1 == i);
            }
        }
    }
    true
}

/// Tells whether `vocab` holds a payload for every identifier of `ids`, which
/// is what `decode` asks of its arguments.
pub fn covers_ids(vocab: &LinkedHashMap<u16, Vec<u8>>, ids: &Vec<u16>) -> (ok: bool)
    ensures
        ok == covers(vocab_payloads(*vocab), ids@),
{
    let mut i: usize = 0;
    while i < ids.len()
        invariant
            i <= ids.len(),
            forall|j: int| 0 <= j < i ==> vocab_payloads(*vocab).contains_key(#[trigger] ids@[j]),
        decreases ids.len() - i,
    {
        if vocab_get(vocab, ids[i]).is_none() {
            return false;
        }
        i += 1;
    }
    true
}

/// Expands a merge table into the vocabulary of every identifier in use.
pub fn generate_vocab(merges: LinkedHashMap<(u16, u16), u16>) -> (vocab: LinkedHashMap<
    u16,
    Vec<u8>,
>)
    requires
        well_ordered(merge_rules(merges)),
    ensures
        vocab_payloads(vocab) == vocabulary_of(merge_rules(merges)),
{
    let mut vocab = new_vocab();
    let mut byte: u16 = 0;
    while byte < 256
        invariant
            byte <= 256,
            vocab_payloads(vocab) == Map::new(|id: u16| id < byte, |id: u16| seq![id as u8]),
        decreases 256 - byte,
    {
        let mut payload: Vec<u8> = Vec::new();
        payload.push(byte as u8);
        vocab_insert(&mut vocab, byte, payload);
        byte += 1;
        assert(vocab_payloads(vocab) =~= Map::new(|id: u16| id < byte, |id: u16| seq![id as u8]));
    }
    let rules = table_rules(&merges);
    assert(rules@.take(0) =~= Seq::<Rule>::empty());
    let mut k: usize = 0;
    while k < rules.len()
        invariant
            k <= rules.len(),
            well_ordered(rules@),
            vocab_payloads(vocab) == vocabulary_of(rules@.take(k as int)),
        decreases rules.len() - k,
    {
        let ((p0, p1), id) = rules[k];
        let ghost done = rules@.take(k as int);
        proof {
            lemma_vocabulary_domain(done, p0);
            lemma_vocabulary_domain(done, p1);
            assert(defined_before(rules@, k as int, rules@[k as int].0.0));
            assert(defined_before(rules@, k as int, rules@[k as int].0.1));
            if p0 >= 256 {
                let j = choose|j: int| 0 <= j < k && #[trigger] rules@[j].1 == p0;
                assert(done[j].1 == p0);
            }
            if p1 >= 256 {
                let j = choose|j: int| 0 <= j < k && #[trigger] rules@[j].1 == p1;
                assert(done[j].1 == p1);
            }
        }
        let mut payload: Vec<u8> = Vec::new();
        append(&mut payload, vocab_get(&vocab, p0).unwrap());
        append(&mut payload, vocab_get(&vocab, p1).unwrap());
        vocab_insert(&mut vocab, id, payload);
        k += 1;
        assert(rules@.take(k as int).drop_last() =~= done);
    }
    assert(rules@.take(k as int) =~= rules@);
    vocab
}

/// Joins the payloads of `ids` and reads the bytes as text, replacing
/// ill-formed UTF-8 rather than failing.
pub fn decode(ids: Vec<u16>, vocab: LinkedHashMap<u16, Vec<u8>>) -> (text: String)
    requires
        covers(vocab_payloads(vocab), ids@),
    ensures
        text@ == text_of(expand(ids@, vocab_payloads(vocab))),
{
    let mut buffer: Vec<u8> = Vec::new();
    assert(ids@.take(0) =~= Seq::<u16>::empty());
    let mut i: usize = 0;
    while i < ids.len()
        invariant
            i <= ids.len(),
            covers(vocab_payloads(vocab), ids@),
            buffer@ == expand(ids@.take(i as int), vocab_payloads(vocab)),
        decreases ids.len() - i,
    {
        append(&mut buffer, vocab_get(&vocab, ids[i]).unwrap());
        i += 1;
        assert(ids@.take(i as int).drop_last() =~= ids@.take(i - 1));
    }
    assert(ids@.take(i as int) =~= ids@);
    from_utf8_lossy(&buffer)
}

/// Builds the vocabulary of `merges` and decodes `ids_orig` through it.
pub fn generate_and_decode(ids_orig: Vec<u16>, merges: LinkedHashMap<(u16, u16), u16>) -> (text:
    String)
    requires
        well_ordered(merge_rules(merges)),
        covers(vocabulary_of(merge_rules(merges)), ids_orig@),
    ensures
        text@ == text_of(expand(ids_orig@, vocabulary_of(merge_rules(merges)))),
{
    let vocab = generate_vocab(merges);
    decode(ids_orig, vocab)
}

} // verus!
