use lemons_search::positions::{char_count, sorted_positions, spread_positions};
use lemons_search::ranking::{keep_best, Candidate};

fn candidate(position: usize, score: u32) -> Candidate {
    Candidate { position, score }
}

#[test]
fn keep_best_orders_by_score() {
    let mut best = Vec::new();
    keep_best(&mut best, candidate(0, 10), 5);
    keep_best(&mut best, candidate(1, 30), 5);
    keep_best(&mut best, candidate(2, 20), 5);
    assert_eq!(best, vec![candidate(1, 30), candidate(2, 20), candidate(0, 10)]);
}

#[test]
fn keep_best_puts_equal_scores_in_order_of_arrival() {
    let mut best = Vec::new();
    keep_best(&mut best, candidate(0, 7), 5);
    keep_best(&mut best, candidate(1, 7), 5);
    keep_best(&mut best, candidate(2, 9), 5);
    keep_best(&mut best, candidate(3, 7), 5);
    assert_eq!(
        best,
        vec![candidate(2, 9), candidate(0, 7), candidate(1, 7), candidate(3, 7)]
    );
}

#[test]
fn keep_best_drops_what_falls_behind_the_cap() {
    let mut best = Vec::new();
    keep_best(&mut best, candidate(0, 5), 2);
    keep_best(&mut best, candidate(1, 9), 2);
    keep_best(&mut best, candidate(2, 7), 2);
    assert_eq!(best, vec![candidate(1, 9), candidate(2, 7)]);
    keep_best(&mut best, candidate(3, 7), 2);
    assert_eq!(best, vec![candidate(1, 9), candidate(2, 7)]);
    keep_best(&mut best, candidate(4, 1), 2);
    assert_eq!(best, vec![candidate(1, 9), candidate(2, 7)]);
}

#[test]
fn keep_best_with_cap_zero_keeps_nothing() {
    let mut best = Vec::new();
    keep_best(&mut best, candidate(0, 5), 0);
    assert_eq!(best, vec![]);
}

#[test]
fn sorted_positions_sorts_and_drops_repetitions() {
    assert_eq!(sorted_positions(&vec![5, 1, 3, 1, 5, 2], 10), vec![1, 2, 3, 5]);
}

#[test]
fn sorted_positions_keeps_ascending_input() {
    assert_eq!(sorted_positions(&vec![0, 1, 2, 7], 8), vec![0, 1, 2, 7]);
}

#[test]
fn sorted_positions_leaves_out_what_lies_outside() {
    assert_eq!(sorted_positions(&vec![9, 3, 10, 4, 11], 10), vec![3, 4, 9]);
    assert_eq!(sorted_positions(&vec![0], 0), vec![]);
}

#[test]
fn sorted_positions_of_nothing() {
    assert_eq!(sorted_positions(&vec![], 4), vec![]);
}

#[test]
fn keep_best_agrees_with_a_stable_sort() {
    let mut state: u32 = 99;
    for cap in [1usize, 3, 10, 50] {
        let mut all: Vec<Candidate> = Vec::new();
        let mut best: Vec<Candidate> = Vec::new();
        for position in 0..200 {
            state = state.wrapping_mul(1664525).wrapping_add(1013904223);
            let item = candidate(position, (state >> 28) % 6);
            all.push(item);
            keep_best(&mut best, item, cap);
            let mut expected = all.clone();
            expected.sort_by(|left, right| right.score.cmp(&left.score));
            expected.truncate(cap);
            assert_eq!(best, expected);
        }
    }
}

#[test]
fn sorted_positions_agree_with_sort_and_dedup() {
    let mut state: u32 = 7;
    for round in 0..100 {
        let mut raw: Vec<u32> = Vec::new();
        for _ in 0..(round % 17) {
            state = state.wrapping_mul(1664525).wrapping_add(1013904223);
            raw.push((state >> 27) % 20);
        }
        let mut expected: Vec<u32> = raw.iter().copied().filter(|&p| p < 15).collect();
        expected.sort_unstable();
        expected.dedup();
        assert_eq!(sorted_positions(&raw, 15), expected);
    }
}

#[test]
fn spread_positions_gives_the_characters_of_the_clusters() {
    assert_eq!(spread_positions(&vec![0, 2], &vec![2, 1, 3]), vec![0, 1, 3, 4, 5]);
    assert_eq!(spread_positions(&vec![1], &vec![2, 1, 3]), vec![2]);
    assert_eq!(spread_positions(&vec![], &vec![2, 1, 3]), vec![]);
    assert_eq!(spread_positions(&vec![0, 1, 2], &vec![1, 1, 1]), vec![0, 1, 2]);
    assert_eq!(spread_positions(&vec![], &vec![]), vec![]);
}

#[test]
fn char_count_counts_characters() {
    assert_eq!(char_count(""), 0);
    assert_eq!(char_count("abc"), 3);
    assert_eq!(char_count("e\u{301}\u{e9}"), 3);
}
