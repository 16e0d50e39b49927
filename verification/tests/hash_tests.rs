use minhash_grouping::hash::{compare_hash, compute_hash, shingle_string, token_hashes, UNSEEN_SLOT};
use minhash_grouping::score::{Fraction, Threshold};

#[test]
fn shingle_string_doc_example() {
    let tokens = shingle_string("Hello".to_string(), 2);
    assert_eq!(tokens, vec!["He", "el", "ll", "lo"]);
}

#[test]
fn shingle_string_window_longer_than_text() {
    let tokens = shingle_string("Hi".to_string(), 3);
    assert!(tokens.is_empty());
}

#[test]
fn shingle_string_window_as_long_as_text() {
    let tokens = shingle_string("abc".to_string(), 3);
    assert_eq!(tokens, vec!["abc"]);
}

#[test]
fn shingle_string_empty_windows() {
    let tokens = shingle_string("ab".to_string(), 0);
    assert_eq!(tokens, vec!["", "", ""]);
}

#[test]
fn shingle_string_counts_bytes() {
    // "é" takes two bytes, so "éa" has three bytes and one window of three.
    let tokens = shingle_string("éa".to_string(), 3);
    assert_eq!(tokens, vec!["éa"]);
    let tokens = shingle_string("aéb".to_string(), 4);
    assert_eq!(tokens, vec!["aéb"]);
    let tokens = shingle_string("aéb".to_string(), 5);
    assert!(tokens.is_empty());
}

#[test]
fn token_hashes_are_xxh3_digests() {
    let tokens = vec!["ab".to_string(), "bc".to_string()];
    let hashes = token_hashes(&tokens);
    assert_eq!(
        hashes,
        vec![xxhash_rust::xxh3::xxh3_64(b"ab"), xxhash_rust::xxh3::xxh3_64(b"bc")]
    );
    assert_ne!(hashes[0], hashes[1]);
}

#[test]
fn compute_hash_takes_row_minimum() {
    let rows = vec![vec![5, 3, 7], vec![], vec![1_000_000, 2], vec![2_000_000]];
    assert_eq!(compute_hash(&rows), vec![3, UNSEEN_SLOT, 2, UNSEEN_SLOT]);
    assert_eq!(UNSEEN_SLOT, 999_999);
}

#[test]
fn compute_hash_of_no_rows() {
    let rows: Vec<Vec<u64>> = vec![];
    assert!(compute_hash(&rows).is_empty());
}

#[test]
fn compare_hash_counts_equal_slots() {
    let f = compare_hash(vec![1, 2, 3], vec![1, 5, 3, 9], 4);
    assert_eq!(f, Fraction { num: 2, den: 4 });
    let g = compare_hash(vec![1, 5, 3, 9], vec![1, 2, 3], 4);
    assert_eq!(g, f);
}

#[test]
fn compare_hash_self_is_full() {
    let f = compare_hash(vec![4, 4, 8], vec![4, 4, 8], 3);
    assert_eq!(f, Fraction { num: 3, den: 3 });
}

#[test]
fn compare_hash_empty() {
    let f = compare_hash(vec![], vec![1], 0);
    assert_eq!(f, Fraction { num: 0, den: 0 });
}

#[test]
fn fraction_one() {
    assert_eq!(Fraction::one(), Fraction { num: 1, den: 1 });
}

#[test]
fn threshold_predicates() {
    let t = Threshold { min_at_least: 3, min_above: 4 };
    assert!(!t.is_reached_by(2));
    assert!(t.is_reached_by(3));
    assert!(t.is_not_exceeded_by(3));
    assert!(!t.is_not_exceeded_by(4));
}

#[test]
fn appending_a_char_adds_one_last_shingle() {
    let before = shingle_string("Hell".to_string(), 2);
    let after = shingle_string("Hello".to_string(), 2);
    let mut expected = before.clone();
    expected.push("lo".to_string());
    assert_eq!(after, expected);
    let before = shingle_string("ab".to_string(), 3);
    let after = shingle_string("abc".to_string(), 3);
    assert!(before.is_empty());
    assert_eq!(after, vec!["abc"]);
}

#[test]
fn signature_ignores_order_and_repetition() {
    let a = compute_hash(&vec![vec![5, 3, 3, 8], vec![]]);
    let b = compute_hash(&vec![vec![8, 3, 5], vec![]]);
    assert_eq!(a, b);
}

#[test]
fn more_buckets_never_raise_a_slot() {
    let small = compute_hash(&vec![vec![5, 9], vec![7]]);
    let large = compute_hash(&vec![vec![9, 5, 2], vec![7, 8]]);
    assert_eq!(small, vec![5, 7]);
    assert_eq!(large, vec![2, 7]);
    assert!(large.iter().zip(small.iter()).all(|(l, s)| l <= s));
}

#[test]
fn token_hashes_follow_tokens() {
    let small = token_hashes(&vec!["ab".to_string(), "cd".to_string()]);
    let large = token_hashes(&vec!["cd".to_string(), "xy".to_string(), "ab".to_string(), "ab".to_string()]);
    assert!(small.iter().all(|h| large.contains(h)));
}
