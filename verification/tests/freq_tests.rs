use rustygenmo::freq::{
    compute_order_assignment, distinct_tokens, group_cmd, group_frequencies, word_cmd,
    word_frequency, OrderAssignment,
};
use rustygenmo::error::ModelError;

#[test]
fn word_frequency_counts_globally() {
    let freq = word_frequency("The cat sat. The cat ran.");
    assert_eq!(
        freq,
        vec![
            (String::from("the"), 2),
            (String::from("cat"), 2),
            (String::from("sat"), 1),
            (String::from("ran"), 1),
        ]
    );
}

#[test]
fn group_frequencies_bucket_by_count() {
    let freq = word_frequency("The cat sat. The cat ran.");
    let buckets = group_frequencies(&freq);
    // Two tokens occur twice, two tokens occur once.
    assert_eq!(buckets, vec![(2, 2), (1, 2)]);
}

#[test]
fn distinct_tokens_keep_first_appearance_order() {
    let d = distinct_tokens("The cat sat. The cat ran.");
    assert_eq!(d, vec!["the", "cat", "sat", "ran"]);
}

#[test]
fn word_cmd_sorts_by_count_descending() {
    let rows = word_cmd("bb bb bb aa aa cc");
    assert_eq!(rows.len(), 3);
    assert_eq!(rows[0], (String::from("bb"), 3));
    assert_eq!(rows[1], (String::from("aa"), 2));
    assert_eq!(rows[2], (String::from("cc"), 1));
}

#[test]
fn group_cmd_ranks_by_size_then_count() {
    // Counts: aa:2 bb:2 cc:1 -> buckets (2, size 2) and (1, size 1).
    let rows = group_cmd("aa bb aa bb cc");
    assert_eq!(rows, vec![(2, 2), (1, 1)]);
    // Tie on size: the bucket with the larger count value ranks first.
    let tied = group_cmd("The cat sat. The cat ran.");
    assert_eq!(tied, vec![(2, 2), (1, 2)]);
}

#[test]
fn assignment_retains_top_buckets_and_collapses_the_rest() {
    let toks: Vec<String> = ["aa", "bb", "aa", "bb", "cc"].iter().map(|s| s.to_string()).collect();
    // Two buckets: size 2 (count 2) ranked first, size 1 (count 1) second.
    let both = compute_order_assignment(&toks, 2).unwrap();
    assert_eq!(both.order_of(&String::from("aa")), Some(2));
    assert_eq!(both.order_of(&String::from("bb")), Some(2));
    assert_eq!(both.order_of(&String::from("cc")), Some(1));
    // With one requested group, the second bucket collapses into the first.
    let one = compute_order_assignment(&toks, 1).unwrap();
    assert_eq!(one.order_of(&String::from("aa")), Some(2));
    assert_eq!(one.order_of(&String::from("cc")), Some(2));
    assert_eq!(one.order_of(&String::from("zz")), None);
}

#[test]
fn scenario_single_group_collapses_everything_to_order_two() {
    let toks = rustygenmo::token::create_corpus("The cat sat. The cat ran.");
    let a = compute_order_assignment(&toks, 1).unwrap();
    for w in ["the", "cat", "sat", "ran"].iter() {
        assert_eq!(a.order_of(&w.to_string()), Some(2));
    }
    assert_eq!(a.len(), 4);
}

#[test]
fn orders_are_bucket_sizes_not_count_values() {
    // Counts: aa:3, bb:1, cc:1. Buckets: value 3 with one token, value 1
    // with two tokens. Ranked by size, the pair bucket comes first.
    let toks: Vec<String> = ["aa", "aa", "aa", "bb", "cc"].iter().map(|s| s.to_string()).collect();
    let a = compute_order_assignment(&toks, 2).unwrap();
    assert_eq!(a.order_of(&String::from("bb")), Some(2));
    assert_eq!(a.order_of(&String::from("cc")), Some(2));
    // The singleton bucket is retained with its own size as the order.
    assert_eq!(a.order_of(&String::from("aa")), Some(1));
}

#[test]
fn bucket_sizes_sum_to_the_distinct_token_count() {
    let rows = group_cmd("The cat sat. The cat ran.");
    let total: u64 = rows.iter().map(|(_, size)| size).sum();
    assert_eq!(total, 4);
}

#[test]
fn empty_corpus_is_rejected() {
    let toks: Vec<String> = Vec::new();
    let r = compute_order_assignment(&toks, 1);
    assert!(matches!(r, Err(ModelError::EmptyCorpus)));
}

#[test]
fn entries_round_trip_through_validation() {
    let toks: Vec<String> = ["x", "y", "x"].iter().map(|s| s.to_string()).collect();
    let a = compute_order_assignment(&toks, 1).unwrap();
    let pairs = a.entries().clone();
    let b = OrderAssignment::from_entries(pairs).unwrap();
    assert_eq!(b.order_of(&String::from("x")), a.order_of(&String::from("x")));
}

#[test]
fn invalid_entries_are_refused() {
    let dup = vec![(String::from("x"), 1), (String::from("x"), 2)];
    assert!(OrderAssignment::from_entries(dup).is_none());
    let zero = vec![(String::from("x"), 0)];
    assert!(OrderAssignment::from_entries(zero).is_none());
}

#[test]
fn distinct_orders_lists_each_order_once() {
    let pairs = vec![
        (String::from("x"), 2),
        (String::from("y"), 2),
        (String::from("z"), 1),
    ];
    let a = OrderAssignment::from_entries(pairs).unwrap();
    assert_eq!(a.distinct_orders(), vec![2, 1]);
}
