use srt_align::align::{backtrack_alignment, dtw_band, dtw_window, make_non_decreasing};
use srt_align::similarity::{bigram_overlap, similarity_fraction};

#[test]
fn window_is_a_quarter_but_at_least_three() {
    assert_eq!(dtw_window(10, 4), 3);
    assert_eq!(dtw_window(40, 8), 10);
    assert_eq!(dtw_window(8, 44), 11);
    assert_eq!(dtw_window(0, 0), 3);
}

#[test]
fn band_is_cut_at_both_ends() {
    assert_eq!(dtw_band(5, 3, 20), (2, 9));
    assert_eq!(dtw_band(1, 3, 4), (0, 4));
    assert_eq!(dtw_band(0, 3, 10), (0, 4));
}

#[test]
fn backtracking_follows_decisions() {
    let decisions = vec![
        vec![false, false, false],
        vec![false, false, true],
        vec![false, false, true],
    ];
    assert_eq!(backtrack_alignment(&decisions, 2), vec![1, 1, 2]);
    let all = vec![vec![true; 3]; 4];
    assert_eq!(backtrack_alignment(&all, 2), vec![0, 0, 1, 2]);
    assert_eq!(backtrack_alignment(&vec![vec![true]], 0), vec![0]);
}

#[test]
fn mapping_made_non_decreasing() {
    let mut m = vec![3, 1, 2, 5, 4];
    make_non_decreasing(&mut m);
    assert_eq!(m, vec![3, 3, 3, 5, 5]);
    let mut sorted = vec![0, 0, 1, 4];
    make_non_decreasing(&mut sorted);
    assert_eq!(sorted, vec![0, 0, 1, 4]);
    let mut empty: Vec<usize> = Vec::new();
    make_non_decreasing(&mut empty);
    assert!(empty.is_empty());
}

#[test]
fn bigram_counts() {
    assert_eq!(bigram_overlap("abc", "abd"), (1, 3));
    assert_eq!(bigram_overlap("aaa", "aa"), (1, 1));
    assert_eq!(bigram_overlap("hello", "hello"), (4, 4));
    assert_eq!(bigram_overlap("ab", "cd"), (0, 2));
}

#[test]
fn similarity_fractions() {
    assert_eq!(similarity_fraction("", ""), (1, 1));
    assert_eq!(similarity_fraction("a", ""), (0, 1));
    assert_eq!(similarity_fraction("", "abc"), (0, 1));
    assert_eq!(similarity_fraction("a", "a"), (0, 1));
    assert_eq!(similarity_fraction("abc", "abd"), (1, 3));
    assert_eq!(similarity_fraction("hello", "hello"), (4, 4));
    assert_eq!(similarity_fraction("abd", "abc"), similarity_fraction("abc", "abd"));
}
