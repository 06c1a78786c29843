use bpe_tokenizer::{
    calculate_merges_default, convert_to_bytes, decode, encode, generate_vocab,
    get_most_frequent_pair, get_stats, merge,
};
use linked_hash_map::LinkedHashMap;

const LONG_INPUT: &str = "\u{ff35}\u{ff4e}\u{ff49}\u{ff43}\u{ff4f}\u{ff44}\u{ff45}! \u{1f164}\u{1f15d}\u{1f158}\u{1f152}\u{1f15e}\u{1f153}\u{1f154}\u{203d} \u{1f1fa}\u{200c}\u{1f1f3}\u{200c}\u{1f1ee}\u{200c}\u{1f1e8}\u{200c}\u{1f1f4}\u{200c}\u{1f1e9}\u{200c}\u{1f1ea}! \u{1f604} The very name strikes fear and awe into the hearts of programmers worldwide. We all know we ought to \u{201c}support Unicode\u{201d} in our software (whatever that means\u{2014}like using wchar_t for all the strings, right?). But Unicode can be abstruse, and diving into the thousand-page Unicode Standard plus its dozens of supplementary annexes, reports, and notes can be more than a little intimidating. I don\u{2019}t blame programmers for still finding the whole thing mysterious, even 30 years after Unicode\u{2019}s inception.";

fn run_calculate_merges() -> LinkedHashMap<(u16, u16), u16> {
    let ids = convert_to_bytes(LONG_INPUT);
    calculate_merges_default(ids, 276)
}

#[test]
fn convert_to_bytes_complex() {
    let bytes = convert_to_bytes(LONG_INPUT);
    assert_eq!(
        bytes,
        vec![
            239, 188, 181, 239, 189, 142, 239, 189, 137, 239, 189, 131, 239, 189, 143, 239,
            189, 132, 239, 189, 133, 33, 32, 240, 159, 133, 164, 240, 159, 133, 157, 240, 159,
            133, 152, 240, 159, 133, 146, 240, 159, 133, 158, 240, 159, 133, 147, 240, 159,
            133, 148, 226, 128, 189, 32, 240, 159, 135, 186, 226, 128, 140, 240, 159, 135, 179,
            226, 128, 140, 240, 159, 135, 174, 226, 128, 140, 240, 159, 135, 168, 226, 128,
            140, 240, 159, 135, 180, 226, 128, 140, 240, 159, 135, 169, 226, 128, 140, 240,
            159, 135, 170, 33, 32, 240, 159, 152, 132, 32, 84, 104, 101, 32, 118, 101, 114,
            121, 32, 110, 97, 109, 101, 32, 115, 116, 114, 105, 107, 101, 115, 32, 102, 101,
            97, 114, 32, 97, 110, 100, 32, 97, 119, 101, 32, 105, 110, 116, 111, 32, 116, 104,
            101, 32, 104, 101, 97, 114, 116, 115, 32, 111, 102, 32, 112, 114, 111, 103, 114,
            97, 109, 109, 101, 114, 115, 32, 119, 111, 114, 108, 100, 119, 105, 100, 101, 46,
            32, 87, 101, 32, 97, 108, 108, 32, 107, 110, 111, 119, 32, 119, 101, 32, 111, 117,
            103, 104, 116, 32, 116, 111, 32, 226, 128, 156, 115, 117, 112, 112, 111, 114, 116,
            32, 85, 110, 105, 99, 111, 100, 101, 226, 128, 157, 32, 105, 110, 32, 111, 117,
            114, 32, 115, 111, 102, 116, 119, 97, 114, 101, 32, 40, 119, 104, 97, 116, 101,
            118, 101, 114, 32, 116, 104, 97, 116, 32, 109, 101, 97, 110, 115, 226, 128, 148,
            108, 105, 107, 101, 32, 117, 115, 105, 110, 103, 32, 119, 99, 104, 97, 114, 95,
            116, 32, 102, 111, 114, 32, 97, 108, 108, 32, 116, 104, 101, 32, 115, 116, 114,
            105, 110, 103, 115, 44, 32, 114, 105, 103, 104, 116, 63, 41, 46, 32, 66, 117, 116,
            32, 85, 110, 105, 99, 111, 100, 101, 32, 99, 97, 110, 32, 98, 101, 32, 97, 98, 115,
            116, 114, 117, 115, 101, 44, 32, 97, 110, 100, 32, 100, 105, 118, 105, 110, 103,
            32, 105, 110, 116, 111, 32, 116, 104, 101, 32, 116, 104, 111, 117, 115, 97, 110,
            100, 45, 112, 97, 103, 101, 32, 85, 110, 105, 99, 111, 100, 101, 32, 83, 116, 97,
            110, 100, 97, 114, 100, 32, 112, 108, 117, 115, 32, 105, 116, 115, 32, 100, 111,
            122, 101, 110, 115, 32, 111, 102, 32, 115, 117, 112, 112, 108, 101, 109, 101, 110,
            116, 97, 114, 121, 32, 97, 110, 110, 101, 120, 101, 115, 44, 32, 114, 101, 112,
            111, 114, 116, 115, 44, 32, 97, 110, 100, 32, 110, 111, 116, 101, 115, 32, 99, 97,
            110, 32, 98, 101, 32, 109, 111, 114, 101, 32, 116, 104, 97, 110, 32, 97, 32, 108,
            105, 116, 116, 108, 101, 32, 105, 110, 116, 105, 109, 105, 100, 97, 116, 105, 110,
            103, 46, 32, 73, 32, 100, 111, 110, 226, 128, 153, 116, 32, 98, 108, 97, 109, 101,
            32, 112, 114, 111, 103, 114, 97, 109, 109, 101, 114, 115, 32, 102, 111, 114, 32,
            115, 116, 105, 108, 108, 32, 102, 105, 110, 100, 105, 110, 103, 32, 116, 104, 101,
            32, 119, 104, 111, 108, 101, 32, 116, 104, 105, 110, 103, 32, 109, 121, 115, 116,
            101, 114, 105, 111, 117, 115, 44, 32, 101, 118, 101, 110, 32, 51, 48, 32, 121, 101,
            97, 114, 115, 32, 97, 102, 116, 101, 114, 32, 85, 110, 105, 99, 111, 100, 101, 226,
            128, 153, 115, 32, 105, 110, 99, 101, 112, 116, 105, 111, 110, 46,
        ]
    );
}

#[test]
fn get_most_frequent_pair_complex() {
    let ids = convert_to_bytes(LONG_INPUT);
    let map = get_most_frequent_pair(ids);
    assert_eq!(
        map,
        Some((101u16, 32u16)),
        "The most frequent pair did not match the expected values."
    );
}

#[test]
fn merge_complex() {
    let ids = convert_to_bytes(LONG_INPUT);
    let map = get_most_frequent_pair(ids.clone());
    assert!(map.is_some(), "The most frequent pair was not found.");
    let pair = map.unwrap();
    let idx = 256;
    let merged = merge(ids, pair, idx);
    println!("Merged: {:?}", merged);
    let mut count = 0;
    for i in merged.iter() {
        if idx == *i {
            count += 1;
        }
    }
    assert_eq!(count, 20, "The count of merges should be 20");
}

#[test]
fn calculate_merges_complex() {
    let merges = run_calculate_merges();
    assert_eq!(merges.len(), 20);
}

#[test]
fn calculate_merges_complex_rules_in_order() {
    let merges = run_calculate_merges();
    let rules: Vec<((u16, u16), u16)> = merges.iter().map(|(pair, idx)| (*pair, *idx)).collect();
    assert_eq!(
        rules,
        vec![
            ((101, 32), 256),
            ((240, 159), 257),
            ((105, 110), 258),
            ((226, 128), 259),
            ((97, 110), 260),
            ((115, 32), 261),
            ((116, 104), 262),
            ((97, 114), 263),
            ((257, 133), 264),
            ((257, 135), 265),
            ((101, 114), 266),
            ((111, 114), 267),
            ((116, 32), 268),
            ((140, 265), 269),
            ((239, 189), 270),
            ((258, 103), 271),
            ((259, 269), 272),
            ((32, 262), 273),
            ((44, 32), 274),
            ((115, 116), 275),
        ]
    );
}

#[test]
fn long_input_pair_counts() {
    let stats = get_stats(convert_to_bytes(LONG_INPUT));
    assert_eq!(stats.count((101, 32)), 20);
    assert_eq!(stats.count((240, 159)), 15);
    assert_eq!(stats.count((105, 110)), 12);
    assert_eq!(stats.count((226, 128)), 12);
    assert_eq!(stats.count((0, 0)), 0);
}

#[test]
fn generate_vocab_complex() {
    let merges = run_calculate_merges();
    let vocab = generate_vocab(merges);
    println!("Vocab: {:?}", vocab);
    assert_eq!(vocab.len(), 276);
    assert_eq!(vocab.get(&256), Some(&vec![101u8, 32]));
    assert_eq!(vocab.get(&264), Some(&vec![240u8, 159, 133]));
    assert_eq!(vocab.get(&272), Some(&vec![226u8, 128, 140, 240, 159, 135]));
}

#[test]
fn decode_simple() {
    let merges = run_calculate_merges();
    let vocab = generate_vocab(merges);
    let res = decode(vec![101, 32], vocab);
    println!("Decoded: {:?}", res);
    assert_eq!(res, "e ");
}

#[test]
fn encode_simple() {
    let merges = run_calculate_merges();
    let encoded = encode("hello world", merges);
    println!("Encoded: {:?}", encoded);
    assert_eq!(encoded, vec![104, 101, 108, 108, 111, 32, 119, 267, 108, 100]);
}

#[test]
fn encode_decode_simple() {
    let merges = run_calculate_merges();
    let orig_str = "hello world, While I'm glad to hear about your job opportunity in Dubai, I must admit that I'm a bit skeptical about the salary you mentioned. \u{ff35}\u{ff4e}\u{ff49}\u{ff43}\u{ff4f}\u{ff44}\u{ff45}! \u{1f164}\u{1f15d}\u{1f158}\u{1f152}\u{1f15e}\u{1f153}\u{1f154}\u{203d}";
    let encoded = encode(orig_str, merges.clone());
    println!("Encoded: {:?}", encoded);
    let vocab = generate_vocab(merges);
    let res = decode(encoded.clone(), vocab);
    println!("Decoded: {:?}", res);
    println!("Compression: {:?}", orig_str.len() as f64 / encoded.len() as f64);
    assert_eq!(res, orig_str);
    assert_eq!(orig_str.len(), 197);
    assert_eq!(encoded.len(), 159);
}

#[test]
fn long_input_round_trip() {
    let merges = run_calculate_merges();
    let encoded = encode(LONG_INPUT, merges.clone());
    assert!(encoded.len() < LONG_INPUT.len());
    let res = decode(encoded, generate_vocab(merges));
    assert_eq!(res, LONG_INPUT);
}
