//! Decoding undoes encoding: the tokens that a text is encoded into expand
//! to the bytes of that text.

use crate::encode::{encoded, first_applicable, is_first_applicable};
use crate::merge::{lemma_merged_elements, lemma_merged_shorter, merged};
use crate::stats::{lemma_pair_count_positive, pair_counts};
use crate::table::{lemma_rule_for, numbered_from, rule_for, Rule};
use crate::text::{byte_ids, text_of, widen};
use crate::train::{lemma_trained_numbering, trained};
use crate::vocab::{
    covers, expand, holds_bytes, lemma_numbered_vocabulary, lemma_vocabulary_domain,
    vocabulary_of, well_ordered,
};
use vstd::prelude::*;
use vstd::utf8::{encode_utf8, encode_utf8_decode_utf8, encode_utf8_valid_utf8};

verus! {

/// The expansion of a concatenation is the concatenation of the expansions.
pub proof fn lemma_expand_concat(a: Seq<u16>, b: Seq<u16>, payloads: Map<u16, Seq<u8>>)
    ensures
        expand(a + b, payloads) == expand(a, payloads) + expand(b, payloads),
    decreases b.len(),
{
    if b.len() == 0 {
        assert(a + b =~= a);
        assert(expand(a, payloads) + expand(b, payloads) =~= expand(a, payloads));
    } else {
        lemma_expand_concat(a, b.drop_last(), payloads);
        assert((a + b).drop_last() =~= a + b.drop_last());
        assert(expand(a + b, payloads) =~= expand(a, payloads) + expand(b, payloads));
    }
}

proof fn lemma_expand_one(id: u16, payloads: Map<u16, Seq<u8>>)
    ensures
        expand(seq![id], payloads) == payloads[id],
{
    assert(seq![id].drop_last() =~= Seq::<u16>::empty());
    assert(expand(Seq::<u16>::empty(), payloads) =~= Seq::<u8>::empty());
    assert(expand(seq![id], payloads) =~= payloads[id]);
}

/// Merging a pair into an identifier whose payload is the payloads of the
/// pair joined leaves the expansion unchanged.
pub proof fn lemma_merged_expand(
    ids: Seq<u16>,
    pair: (u16, u16),
    idx: u16,
    payloads: Map<u16, Seq<u8>>,
)
    requires
        payloads[idx] == payloads[pair.0] + payloads[pair.1],
    ensures
        expand(merged(ids, pair, idx), payloads) == expand(ids, payloads),
    decreases ids.len(),
{
    if ids.len() >= 2 {
        if ids[0] == pair.0 && ids[1] == pair.1 {
            let rest = ids.skip(2);
            lemma_merged_expand(rest, pair, idx, payloads);
            lemma_expand_concat(seq![idx], merged(rest, pair, idx), payloads);
            lemma_expand_one(idx, payloads);
            assert(ids =~= seq![ids[0]] + (seq![ids[1]] + rest));
            lemma_expand_concat(seq![ids[0]], seq![ids[1]] + rest, payloads);
            lemma_expand_concat(seq![ids[1]], rest, payloads);
            lemma_expand_one(ids[0], payloads);
            lemma_expand_one(ids[1], payloads);
            assert(expand(ids, payloads) =~= payloads[idx] + expand(rest, payloads));
        } else {
            let rest = ids.skip(1);
            lemma_merged_expand(rest, pair, idx, payloads);
            lemma_expand_concat(seq![ids[0]], merged(rest, pair, idx), payloads);
            assert(ids =~= seq![ids[0]] + rest);
            lemma_expand_concat(seq![ids[0]], rest, payloads);
        }
    }
}

/// Under the vocabulary of a table numbered from 256, encoding keeps within
/// the vocabulary and leaves the expansion unchanged.
pub proof fn lemma_encoded_expand(ids: Seq<u16>, rules: Seq<Rule>)
    requires
        numbered_from(rules, 256),
        covers(vocabulary_of(rules), ids),
    ensures
        covers(vocabulary_of(rules), encoded(ids, rules)),
        expand(encoded(ids, rules), vocabulary_of(rules)) == expand(ids, vocabulary_of(rules)),
    decreases ids.len(),
{
    let payloads = vocabulary_of(rules);
    let present = pair_counts(ids).dom();
    if let Some(pair) = first_applicable(present, rules) {
        assert(is_first_applicable(present, rules, pair));
        let idx = rule_for(rules, pair).unwrap();
        let out = merged(ids, pair, idx);
        lemma_rule_for(rules, pair);
        let k = choose|k: int| 0 <= k < rules.len() && #[trigger] rules[k] == (pair, idx);
        lemma_numbered_vocabulary(rules);
        lemma_vocabulary_domain(rules, idx);
        assert(rules[k].1 == idx);
        assert(payloads[idx] == payloads[pair.0] + payloads[pair.1]);
        lemma_merged_expand(ids, pair, idx, payloads);
        lemma_merged_elements(ids, pair, idx);
        assert forall|j: int| 0 <= j < out.len() implies payloads.contains_key(
            #[trigger] out[j],
        ) by {
            if out[j] != idx {
                let i = choose|i: int| 0 <= i < ids.len() && ids[i] == out[j];
            }
        }
        lemma_pair_count_positive(ids, pair);
        lemma_merged_shorter(ids, pair, idx);
        lemma_encoded_expand(out, rules);
    }
}

/// Identifiers of raw bytes expand to those bytes under any vocabulary that
/// gives every byte value itself as payload.
pub proof fn lemma_expand_bytes(bytes: Seq<u8>, payloads: Map<u16, Seq<u8>>)
    requires
        holds_bytes(payloads),
    ensures
        covers(payloads, widen(bytes)),
        expand(widen(bytes), payloads) == bytes,
    decreases bytes.len(),
{
    if bytes.len() > 0 {
        let init = bytes.drop_last();
        lemma_expand_bytes(init, payloads);
        assert(widen(bytes).drop_last() =~= widen(init));
        let id = bytes.last() as u16;
        assert(widen(bytes).last() == id);
        assert(payloads.contains_key(id));
        assert(bytes =~= init + seq![bytes.last()]);
        assert forall|i: int| 0 <= i < bytes.len() implies payloads.contains_key(
            #[trigger] widen(bytes)[i],
        ) by {
            assert(payloads.contains_key(bytes[i] as u16));
        }
    } else {
        assert(expand(widen(bytes), payloads) =~= bytes);
    }
}

/// For every text and every merge table numbered from 256: the table is well
/// ordered, the encoding of the text lies within the table's vocabulary, and
/// decoding it gives the text back.
pub proof fn lemma_round_trip(text: Seq<char>, rules: Seq<Rule>)
    requires
        numbered_from(rules, 256),
    ensures
        well_ordered(rules),
        covers(vocabulary_of(rules), encoded(byte_ids(text), rules)),
        text_of(expand(encoded(byte_ids(text), rules), vocabulary_of(rules))) == text,
{
    let payloads = vocabulary_of(rules);
    let bytes = encode_utf8(text);
    lemma_numbered_vocabulary(rules);
    lemma_expand_bytes(bytes, payloads);
    lemma_encoded_expand(byte_ids(text), rules);
    encode_utf8_valid_utf8(text);
    encode_utf8_decode_utf8(text);
}

/// For every text, and every merge table trained on the bytes of any corpus
/// with identifiers from 256 on: the vocabulary of the table can be built,
/// the encoding of the text can be decoded through it, and decoding gives
/// the text back.
pub proof fn lemma_trained_round_trip(text: Seq<char>, corpus: Seq<char>, vocab_size: u16)
    requires
        vocab_size >= 256,
    ensures
        ({
            let rules = trained(byte_ids(corpus), Seq::empty(), 256, (vocab_size - 256) as nat);
            let tokens = encoded(byte_ids(text), rules);
            &&& well_ordered(rules)
            &&& covers(vocabulary_of(rules), tokens)
            &&& text_of(expand(tokens, vocabulary_of(rules))) == text
        }),
{
    lemma_trained_numbering(byte_ids(corpus), vocab_size, 256);
    lemma_round_trip(text, trained(byte_ids(corpus), Seq::empty(), 256, (vocab_size - 256) as nat));
}

} // verus!
