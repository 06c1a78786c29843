use bpe_tokenizer::{convert_to_bytes, get_most_frequent_pair, get_stats, merge};

#[test]
fn convert_to_bytes_simple() {
    let input = "hello";
    let bytes = convert_to_bytes(input);
    assert_eq!(bytes, vec![104, 101, 108, 108, 111]);
}

#[test]
fn convert_to_bytes_simple1() {
    let input = "hello ";
    let bytes = convert_to_bytes(input);
    assert_eq!(bytes, vec![104, 101, 108, 108, 111, 32]);
}

#[test]
fn convert_to_bytes_empty() {
    assert_eq!(convert_to_bytes(""), Vec::<u16>::new());
}

#[test]
fn convert_to_bytes_multibyte() {
    assert_eq!(convert_to_bytes("\u{e9}"), vec![195, 169]);
    assert_eq!(convert_to_bytes("\u{20ac}"), vec![226, 130, 172]);
    assert_eq!(convert_to_bytes("\u{1f604}"), vec![240, 159, 152, 132]);
}

#[test]
fn merge_continuous() {
    let ids = vec![101, 32, 101, 32, 101, 32, 101];
    let idx = 256;
    let merged = merge(ids, (101, 32), idx);
    assert_eq!(merged, vec![256, 256, 256, 101]);
    println!("Merged: {:?}", merged);
}

#[test]
fn merge_short_sequences_unchanged() {
    assert_eq!(merge(vec![], (1, 2), 256), Vec::<u16>::new());
    assert_eq!(merge(vec![1], (1, 2), 256), vec![1]);
    assert_eq!(merge(vec![1], (1, 1), 256), vec![1]);
}

#[test]
fn merge_overlapping_occurrences() {
    assert_eq!(merge(vec![101, 101, 101], (101, 101), 256), vec![256, 101]);
    assert_eq!(merge(vec![101, 101, 101, 101], (101, 101), 256), vec![256, 256]);
    assert_eq!(merge(vec![7, 101, 101, 101, 7], (101, 101), 300), vec![7, 300, 101, 7]);
}

#[test]
fn merge_without_occurrence_unchanged() {
    assert_eq!(merge(vec![1, 2, 3, 4], (2, 1), 256), vec![1, 2, 3, 4]);
    assert_eq!(merge(vec![1, 2, 3, 4], (4, 1), 256), vec![1, 2, 3, 4]);
}

#[test]
fn merge_at_both_ends() {
    assert_eq!(merge(vec![1, 2, 3, 1, 2], (1, 2), 256), vec![256, 3, 256]);
    assert_eq!(merge(vec![1, 2], (1, 2), 256), vec![256]);
    assert_eq!(merge(vec![3, 1, 2], (1, 2), 256), vec![3, 256]);
}

#[test]
fn stats_of_short_sequences_are_empty() {
    assert!(get_stats(vec![]).is_empty());
    assert!(get_stats(vec![7]).is_empty());
    assert!(get_stats(vec![]).pairs().is_empty());
    assert_eq!(get_stats(vec![7]).count((7, 7)), 0);
}

#[test]
fn stats_count_every_position() {
    let stats = get_stats(convert_to_bytes("aaabdaaabac"));
    assert!(!stats.is_empty());
    assert_eq!(stats.count((97, 97)), 4);
    assert_eq!(stats.count((97, 98)), 2);
    assert_eq!(stats.count((98, 100)), 1);
    assert_eq!(stats.count((100, 97)), 1);
    assert_eq!(stats.count((98, 97)), 1);
    assert_eq!(stats.count((97, 99)), 1);
    assert_eq!(stats.count((99, 97)), 0);
    let mut pairs = stats.pairs();
    pairs.sort();
    assert_eq!(pairs, vec![(97, 97), (97, 98), (97, 99), (98, 97), (98, 100), (100, 97)]);
}

#[test]
fn stats_keep_the_order_within_a_pair() {
    let stats = get_stats(vec![1, 2, 65535, 0]);
    assert_eq!(stats.count((1, 2)), 1);
    assert_eq!(stats.count((2, 1)), 0);
    assert_eq!(stats.count((2, 65535)), 1);
    assert_eq!(stats.count((65535, 0)), 1);
    assert_eq!(stats.count((0, 65535)), 0);
}

#[test]
fn most_frequent_pair_none_for_short_sequences() {
    assert_eq!(get_most_frequent_pair(vec![]), None);
    assert_eq!(get_most_frequent_pair(vec![42]), None);
}

#[test]
fn most_frequent_pair_none_below_two_occurrences() {
    assert_eq!(get_most_frequent_pair(vec![1, 2]), None);
    assert_eq!(get_most_frequent_pair(vec![1, 2, 3, 4, 5]), None);
}

#[test]
fn most_frequent_pair_at_two_occurrences() {
    assert_eq!(get_most_frequent_pair(vec![1, 2, 1, 2]), Some((1, 2)));
    assert_eq!(get_most_frequent_pair(vec![9, 9, 9]), Some((9, 9)));
}

#[test]
fn most_frequent_pair_ties_go_to_the_smallest_pair() {
    assert_eq!(get_most_frequent_pair(vec![3, 4, 3, 4, 0, 1, 2, 1, 2]), Some((1, 2)));
    assert_eq!(get_most_frequent_pair(vec![1, 2, 1, 2, 0, 3, 4, 3, 4]), Some((1, 2)));
    assert_eq!(get_most_frequent_pair(vec![1, 9, 1, 9, 0, 1, 3, 1, 3]), Some((1, 3)));
    assert_eq!(get_most_frequent_pair(vec![300, 1, 300, 1, 0, 2, 500, 2, 500]), Some((2, 500)));
}

#[test]
fn most_frequent_pair_prefers_the_higher_count() {
    assert_eq!(get_most_frequent_pair(vec![1, 2, 1, 2, 0, 7, 8, 7, 8, 7, 8]), Some((7, 8)));
}
