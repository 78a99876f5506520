use lemons_search::{ranges_fit_text, segment, HighlightRange, SearchResult};

fn ranges(pairs: &[(usize, usize)]) -> Vec<HighlightRange> {
    pairs.iter().map(|&(start, end)| HighlightRange::new(start, end)).collect()
}

fn pieces(parts: &[(&str, bool)]) -> Vec<(String, bool)> {
    parts.iter().map(|&(text, marked)| (text.to_string(), marked)).collect()
}

fn join(parts: &[(String, bool)]) -> String {
    parts.iter().map(|(text, _)| text.as_str()).collect()
}

#[test]
fn range_new_keeps_its_bounds() {
    let range = HighlightRange::new(3, 9);
    assert_eq!(range.start, 3);
    assert_eq!(range.end, 9);
}

#[test]
fn no_positions_give_no_ranges() {
    assert_eq!(HighlightRange::from_highlights(&vec![]), vec![]);
}

#[test]
fn single_position_gives_a_range_of_one() {
    assert_eq!(HighlightRange::from_highlights(&vec![5]), ranges(&[(5, 6)]));
}

#[test]
fn position_zero_opens_a_range() {
    assert_eq!(HighlightRange::from_highlights(&vec![0]), ranges(&[(0, 1)]));
    assert_eq!(HighlightRange::from_highlights(&vec![0, 1, 2]), ranges(&[(0, 3)]));
}

#[test]
fn consecutive_positions_merge() {
    assert_eq!(HighlightRange::from_highlights(&vec![4, 5, 6, 7]), ranges(&[(4, 8)]));
}

#[test]
fn a_gap_separates_ranges() {
    assert_eq!(
        HighlightRange::from_highlights(&vec![1, 3, 4, 7]),
        ranges(&[(1, 2), (3, 5), (7, 8)])
    );
}

#[test]
fn ranges_never_touch() {
    let found = HighlightRange::from_highlights(&vec![0, 2, 4, 5, 9, 10, 11, 20]);
    for pair in found.windows(2) {
        assert!(pair[0].end < pair[1].start);
    }
    for range in &found {
        assert!(range.start < range.end);
    }
}

#[test]
fn segment_without_ranges_is_the_whole_text() {
    assert_eq!(segment("README.md", &vec![]), pieces(&[("README.md", false)]));
}

#[test]
fn segment_of_empty_text_without_ranges() {
    assert_eq!(segment("", &vec![]), pieces(&[("", false)]));
}

#[test]
fn segment_in_the_middle() {
    assert_eq!(
        segment("src/main.rs", &ranges(&[(4, 8)])),
        pieces(&[("src/", false), ("main", true), (".rs", false)])
    );
}

#[test]
fn segment_touching_the_start_has_no_leading_piece() {
    assert_eq!(
        segment("main.rs", &ranges(&[(0, 4)])),
        pieces(&[("main", true), (".rs", false)])
    );
}

#[test]
fn segment_touching_the_end_has_no_trailing_piece() {
    assert_eq!(
        segment("src/main", &ranges(&[(4, 8)])),
        pieces(&[("src/", false), ("main", true)])
    );
}

#[test]
fn segment_of_a_fully_highlighted_text() {
    assert_eq!(segment("abc", &ranges(&[(0, 3)])), pieces(&[("abc", true)]));
}

#[test]
fn segment_with_several_ranges() {
    assert_eq!(
        segment("axbxc", &ranges(&[(0, 1), (2, 3), (4, 5)])),
        pieces(&[("a", true), ("x", false), ("b", true), ("x", false), ("c", true)])
    );
}

#[test]
fn segment_counts_characters_not_bytes() {
    assert_eq!(
        segment("äöü.md", &ranges(&[(1, 2), (4, 6)])),
        pieces(&[("ä", false), ("ö", true), ("ü.", false), ("md", true)])
    );
}

#[test]
fn segments_alternate() {
    let parts = segment("one two three", &ranges(&[(0, 3), (4, 7), (10, 13)]));
    for pair in parts.windows(2) {
        assert_ne!(pair[0].1, pair[1].1);
    }
    for part in &parts {
        assert!(!part.0.is_empty());
    }
}

#[test]
fn search_result_new_splits_the_path() {
    let result = SearchResult::new("src/main.rs".to_string(), vec![4, 5, 6, 7]);
    assert_eq!(result.path, "src/main.rs");
    assert_eq!(
        result.highlights,
        pieces(&[("src/", false), ("main", true), (".rs", false)])
    );
}

#[test]
fn search_result_new_without_positions() {
    let result = SearchResult::new("README.md".to_string(), vec![]);
    assert_eq!(result.path, "README.md");
    assert_eq!(result.highlights, pieces(&[("README.md", false)]));
}

#[test]
fn search_result_new_scattered_positions() {
    let result = SearchResult::new("axbxc".to_string(), vec![0, 2, 4]);
    assert_eq!(
        result.highlights,
        pieces(&[("a", true), ("x", false), ("b", true), ("x", false), ("c", true)])
    );
}

#[test]
fn try_new_refuses_positions_that_do_not_fit() {
    assert_eq!(SearchResult::try_new("abc".to_string(), vec![0, 3]), None);
    assert_eq!(SearchResult::try_new("abc".to_string(), vec![1, 1]), None);
    assert_eq!(SearchResult::try_new("abc".to_string(), vec![2, 1]), None);
    assert_eq!(SearchResult::try_new("".to_string(), vec![0]), None);
}

#[test]
fn try_new_agrees_with_new() {
    assert_eq!(
        SearchResult::try_new("src/lib.rs".to_string(), vec![0, 4, 5]),
        Some(SearchResult::new("src/lib.rs".to_string(), vec![0, 4, 5]))
    );
    assert_eq!(
        SearchResult::try_new("".to_string(), vec![]),
        Some(SearchResult::new("".to_string(), vec![]))
    );
}

#[test]
fn pieces_rebuild_the_text() {
    let cases: Vec<(&str, Vec<u32>)> = vec![
        ("src/main.rs", vec![4, 5, 6, 7]),
        ("axbxc", vec![0, 2, 4]),
        ("abc", vec![0, 1, 2]),
        ("abc", vec![]),
        ("", vec![]),
        ("äöü/ß.md", vec![0, 2, 3, 7]),
        ("x", vec![0]),
    ];
    for (text, positions) in cases {
        let result = SearchResult::new(text.to_string(), positions);
        assert_eq!(join(&result.highlights), text);
    }
}

#[test]
fn ranges_that_fit_a_text() {
    assert!(ranges_fit_text("abc", &vec![]));
    assert!(ranges_fit_text("", &vec![]));
    assert!(ranges_fit_text("abc", &ranges(&[(0, 3)])));
    assert!(ranges_fit_text("abc", &ranges(&[(0, 1), (1, 2), (3, 3)])));
    assert!(ranges_fit_text("äöü", &ranges(&[(1, 3)])));
}

#[test]
fn ranges_that_do_not_fit_a_text() {
    assert!(!ranges_fit_text("abc", &ranges(&[(0, 4)])));
    assert!(!ranges_fit_text("abc", &ranges(&[(2, 1)])));
    assert!(!ranges_fit_text("abc", &ranges(&[(1, 2), (0, 1)])));
    assert!(!ranges_fit_text("abc", &ranges(&[(0, 2), (1, 3)])));
    assert!(!ranges_fit_text("", &ranges(&[(0, 1)])));
    assert!(!ranges_fit_text("äöü", &ranges(&[(0, 4)])));
}
