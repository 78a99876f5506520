use lemons_search::{
    CasePolicy, HighlightRange, MatchResult, Search, SearchResult, MAX_RESULTS, MAX_WORDS,
    MAX_WORD_LEN,
};
use nucleo_matcher::pattern::{CaseMatching, Normalization, Pattern};
use nucleo_matcher::{Config, Matcher};

fn texts(items: &[&str]) -> Vec<String> {
    items.iter().map(|item| item.to_string()).collect()
}

fn engine(items: &[&str]) -> Search {
    let mut search = Search::new();
    search.update_index(texts(items));
    search
}

fn found(results: &[MatchResult]) -> Vec<&str> {
    results.iter().map(|result| result.text.as_str()).collect()
}

fn found_texts(search: &mut Search, query: &str) -> Vec<String> {
    search.search(query).into_iter().map(|result| result.text).collect()
}

#[test]
fn query_main_finds_main_first() {
    let mut search = engine(&["src/main.rs", "src/lib.rs", "README.md"]);
    let results = search.search("main");
    assert!(!results.is_empty());
    assert_eq!(results[0].text, "src/main.rs");
    assert_eq!(results[0].identity, 0);
    assert_eq!(results[0].matched_indices, vec![4, 5, 6, 7]);
    assert_eq!(
        HighlightRange::from_highlights(&results[0].matched_indices),
        vec![HighlightRange::new(4, 8)]
    );
    let shown = SearchResult::new(results[0].text.clone(), results[0].matched_indices.clone());
    assert_eq!(
        shown.highlights,
        vec![
            ("src/".to_string(), false),
            ("main".to_string(), true),
            (".rs".to_string(), false)
        ]
    );
}

#[test]
fn contiguous_match_ranks_above_scattered() {
    let mut search = engine(&["abc", "axbxc"]);
    let results = search.search("abc");
    assert_eq!(found(&results), vec!["abc", "axbxc"]);
    assert!(results[0].score > results[1].score);
    assert_eq!(results[0].matched_indices, vec![0, 1, 2]);
    assert_eq!(results[1].matched_indices, vec![0, 2, 4]);
}

#[test]
fn contiguous_match_ranks_above_scattered_whatever_the_order() {
    let mut search = engine(&["axbxc", "abc"]);
    let results = search.search("abc");
    assert_eq!(found(&results), vec!["abc", "axbxc"]);
    assert_eq!(results[0].identity, 1);
    assert_eq!(results[1].identity, 0);
}

#[test]
fn rename_then_search() {
    let mut search = Search::new();
    search.add_file("old.md".to_string());
    search.rename_file(&"old.md".to_string(), "new.md".to_string());
    let results = search.search("new");
    assert_eq!(found(&results), vec!["new.md"]);
    let results = search.search("old");
    assert!(results.is_empty());
}

#[test]
fn consistency_check_detects_drift() {
    let mut search = Search::new();
    search.add_file("a".to_string());
    search.add_file("b".to_string());
    assert!(search.check_index_consistency(&texts(&["a", "b"])));
    search.add_file("c".to_string());
    assert!(!search.check_index_consistency(&texts(&["a", "b"])));
}

#[test]
fn empty_query_lists_the_index_in_order() {
    let mut search = engine(&["src/main.rs", "src/lib.rs", "README.md"]);
    let results = search.search("");
    assert_eq!(found(&results), vec!["src/main.rs", "src/lib.rs", "README.md"]);
    for (at, result) in results.iter().enumerate() {
        assert_eq!(result.identity, at);
        assert_eq!(result.score, 0);
        assert!(result.matched_indices.is_empty());
        assert!(HighlightRange::from_highlights(&result.matched_indices).is_empty());
    }
}

#[test]
fn query_of_spaces_lists_the_index_in_order() {
    let mut search = engine(&["b", "a", "c"]);
    let results = search.search("   ");
    assert_eq!(found(&results), vec!["b", "a", "c"]);
    assert!(results.iter().all(|result| result.matched_indices.is_empty()));
}

#[test]
fn search_in_an_empty_index_finds_nothing() {
    let mut search = Search::new();
    assert!(search.search("abc").is_empty());
    assert!(search.search("").is_empty());
}

#[test]
fn search_without_a_match_finds_nothing() {
    let mut search = engine(&["src/main.rs", "src/lib.rs"]);
    assert!(search.search("zzz").is_empty());
}

#[test]
fn results_are_capped() {
    let names: Vec<String> = (0..120).map(|n| format!("file{n}.txt")).collect();
    let mut search = Search::new();
    search.update_index(names.clone());
    let results = search.search("file");
    assert_eq!(results.len(), MAX_RESULTS);
    assert_eq!(MAX_RESULTS, 50);
    let results = search.search("");
    assert_eq!(results.len(), MAX_RESULTS);
    let listed: Vec<String> = results.into_iter().map(|result| result.text).collect();
    assert_eq!(listed, names[..50].to_vec());
}

#[test]
fn equal_scores_keep_the_order_of_the_index() {
    let mut search = engine(&["one/a.txt", "two/a.txt", "six/a.txt"]);
    let results = search.search("a.txt");
    assert_eq!(results.len(), 3);
    assert_eq!(results[0].score, results[1].score);
    assert_eq!(results[1].score, results[2].score);
    assert_eq!(found(&results), vec!["one/a.txt", "two/a.txt", "six/a.txt"]);
}

#[test]
fn equal_texts_keep_the_order_of_the_index() {
    let mut search = engine(&["dup", "other", "dup"]);
    let results = search.search("dup");
    assert_eq!(results.len(), 2);
    assert_eq!(results[0].identity, 0);
    assert_eq!(results[1].identity, 2);
}

#[test]
fn results_are_ranked_by_score_then_position() {
    let names: Vec<String> = (0..80).map(|n| format!("dir{}/note{}.md", n % 7, n)).collect();
    let mut search = Search::new();
    search.update_index(names);
    let results = search.search("note1");
    assert!(!results.is_empty());
    for pair in results.windows(2) {
        assert!(
            pair[0].score > pair[1].score
                || (pair[0].score == pair[1].score && pair[0].identity < pair[1].identity)
        );
    }
}

#[test]
fn matched_indices_are_ascending_and_inside_the_text() {
    let mut search = engine(&["src/main.rs", "main/src.rs", "a/b/c/main", "Main.RS", "s r c"]);
    for query in ["main", "src rs", "rs src", "s s", "m a i n", "sr"] {
        for result in search.search(query) {
            let count = result.text.chars().count();
            for pair in result.matched_indices.windows(2) {
                assert!(pair[0] < pair[1]);
            }
            for &position in &result.matched_indices {
                assert!((position as usize) < count);
            }
        }
    }
}

#[test]
fn words_of_a_query_match_one_by_one() {
    let mut search = engine(&["src/main.rs"]);
    let results = search.search("rs src");
    assert_eq!(results.len(), 1);
    assert_eq!(results[0].matched_indices, vec![0, 1, 2, 9, 10]);
}

#[test]
fn searching_twice_finds_the_same() {
    let mut search = engine(&["src/main.rs", "src/lib.rs", "README.md", "main.c", "domain.rs"]);
    for query in ["main", "", "rs", "s", "zzz"] {
        let first = search.search(query);
        let second = search.search(query);
        assert_eq!(first, second);
    }
}

#[test]
fn a_reused_pattern_answers_as_a_fresh_one() {
    let items = ["src/main.rs", "src/lib.rs", "README.md"];
    let mut reused = engine(&items);
    let _ = reused.search("lib");
    let _ = reused.search("");
    let again = reused.search("main");
    let mut fresh = engine(&items);
    assert_eq!(again, fresh.search("main"));
}

#[test]
fn search_leaves_the_index_alone() {
    let mut search = engine(&["b", "a"]);
    let _ = search.search("a");
    assert!(search.check_index_consistency(&texts(&["b", "a"])));
    assert_eq!(search.index().len(), 2);
}

#[test]
fn smart_case_minds_upper_case_in_the_query() {
    let mut search = engine(&["readme.md", "README.md"]);
    assert_eq!(found(&search.search("readme")).len(), 2);
    assert_eq!(found(&search.search("README")), vec!["README.md"]);
}

#[test]
fn ignore_case_matches_both_cases() {
    let mut search = Search::with_case_policy(CasePolicy::Ignore);
    search.update_index(texts(&["readme.md", "README.md"]));
    assert_eq!(search.search("README").len(), 2);
    assert_eq!(search.search("readme").len(), 2);
}

#[test]
fn default_engine_is_empty_and_smart() {
    let mut search = Search::default();
    assert_eq!(search.index().len(), 0);
    search.add_file("README.md".to_string());
    search.add_file("readme.md".to_string());
    assert_eq!(found(&search.search("README")), vec!["README.md"]);
}

#[test]
fn remove_and_clear_are_seen_by_the_next_search() {
    let mut search = engine(&["a.md", "b.md", "a.md"]);
    search.remove_file(&"a.md".to_string());
    assert_eq!(found(&search.search("md")), vec!["b.md"]);
    search.clear_index();
    assert!(search.search("md").is_empty());
}

#[test]
fn try_search_refuses_a_word_that_is_too_long() {
    let long = "a".repeat(MAX_WORD_LEN + 1);
    let mut search = Search::new();
    search.add_file(long.clone());
    assert_eq!(search.try_search(&long), None);
    assert_eq!(search.search(&long), vec![]);
    let longest = "a".repeat(MAX_WORD_LEN);
    let found = search.try_search(&longest);
    assert_eq!(found.map(|results| results.len()), Some(1));
}

#[test]
fn a_long_query_of_short_words_is_searched_for() {
    let query = "ab ".repeat(3000);
    let mut search = engine(&["xaxb", "ba", "ab/c"]);
    let found = search.try_search(&query);
    assert_eq!(found.map(|results| results.len()), Some(2));
    let mut texts = found_texts(&mut search, &query);
    texts.sort();
    assert_eq!(texts, vec!["ab/c", "xaxb"]);
}

#[test]
fn too_many_words_are_not_searched_for() {
    let query = "a ".repeat(MAX_WORDS + 1);
    let mut search = engine(&["a"]);
    assert_eq!(search.try_search(&query), None);
    assert!(search.search(&query).is_empty());
    let query = "a ".repeat(MAX_WORDS);
    assert_eq!(search.try_search(&query).map(|results| results.len()), Some(1));
}

#[test]
fn escapes_can_make_a_word_longer_than_the_query() {
    let mut query = String::from("é");
    for _ in 0..2047 {
        query.push('\\');
    }
    assert_eq!(query.chars().count(), 2048);
    let mut search = engine(&["abc"]);
    assert_eq!(search.try_search(&query), None);
    assert!(search.search(&query).is_empty());
}

#[test]
fn a_query_that_is_not_searched_for_leaves_the_engine_usable() {
    let mut search = engine(&["src/main.rs", "src/lib.rs"]);
    let long = "m".repeat(MAX_WORD_LEN + 1);
    assert!(search.search(&long).is_empty());
    assert_eq!(found(&search.search("main")), vec!["src/main.rs"]);
    assert_eq!(search.search("").len(), 2);
}

#[test]
fn try_search_agrees_with_search() {
    let mut search = engine(&["src/main.rs", "src/lib.rs"]);
    let direct = search.search("lib");
    assert_eq!(search.try_search("lib"), Some(direct));
}

#[test]
fn longest_word_on_a_text_of_that_length() {
    let text = "a".repeat(MAX_WORD_LEN);
    let mut search = Search::new();
    search.add_file(text.clone());
    let results = search.search(&text);
    assert_eq!(results.len(), 1);
    assert_eq!(results[0].matched_indices.len(), MAX_WORD_LEN);
    assert!(results[0].score < 65536);
}

#[test]
fn non_ascii_texts_are_matched_by_character() {
    let mut search = engine(&["größe/maß.txt", "plain.txt"]);
    let results = search.search("maß");
    assert_eq!(found(&results), vec!["größe/maß.txt"]);
    assert_eq!(results[0].matched_indices, vec![6, 7, 8]);
    let shown = SearchResult::new(results[0].text.clone(), results[0].matched_indices.clone());
    assert_eq!(
        shown.highlights,
        vec![
            ("größe/".to_string(), false),
            ("maß".to_string(), true),
            (".txt".to_string(), false)
        ]
    );
}

#[test]
fn paths_score_better_after_a_separator() {
    let mut search = engine(&["xmain", "x/main"]);
    let results = search.search("main");
    assert_eq!(found(&results), vec!["x/main", "xmain"]);
    assert!(results[0].score > results[1].score);
}

#[test]
fn ranking_agrees_with_the_matcher_crate() {
    let items = [
        "src/main.rs",
        "src/lib.rs",
        "README.md",
        "docs/main.md",
        "src/search/main_loop.rs",
        "Cargo.toml",
        "tests/main_test.rs",
        "src/ui/mod.rs",
        "assets/logo.svg",
        "src/remain.rs",
        "MAIN.txt",
        "notes/größe.md",
    ];
    let mut matcher = Matcher::new(Config::DEFAULT.match_paths());
    let mut search = engine(&items);
    for query in ["main", "rs", "src m", "md", "s", "Main", "o", "^src", "rs$", "!main", "zz"] {
        let expected = Pattern::parse(query, CaseMatching::Smart, Normalization::Smart)
            .match_list(items, &mut matcher);
        let results = search.search(query);
        let got: Vec<(&str, u32)> =
            results.iter().map(|result| (result.text.as_str(), result.score)).collect();
        assert_eq!(got, expected, "query {query:?}");
    }
}

#[test]
fn best_fifty_agree_with_the_matcher_crate() {
    let mut state: u32 = 12345;
    let mut names: Vec<String> = Vec::new();
    for n in 0..400 {
        let mut name = String::new();
        for _ in 0..(3 + n % 9) {
            state = state.wrapping_mul(1664525).wrapping_add(1013904223);
            let pick = (state >> 24) % 8;
            name.push(['a', 'b', 'c', '/', '_', 'A', 'x', '.'][pick as usize]);
        }
        names.push(name);
    }
    let mut matcher = Matcher::new(Config::DEFAULT.match_paths());
    let mut search = Search::new();
    search.update_index(names.clone());
    for query in ["a", "ab", "abc", "a/b", "x.", "A", "c_a"] {
        let mut expected = Pattern::parse(query, CaseMatching::Smart, Normalization::Smart)
            .match_list(names.iter().map(|name| name.as_str()), &mut matcher);
        expected.truncate(MAX_RESULTS);
        let results = search.search(query);
        let got: Vec<(&str, u32)> =
            results.iter().map(|result| (result.text.as_str(), result.score)).collect();
        assert_eq!(got, expected, "query {query:?}");
    }
}

#[test]
fn a_cluster_of_several_characters_is_matched_as_a_whole() {
    let text = "e\u{301}abc";
    let mut search = engine(&[text]);
    let results = search.search("abc");
    assert_eq!(results.len(), 1);
    assert_eq!(results[0].matched_indices, vec![2, 3, 4]);
    let shown = SearchResult::new(results[0].text.clone(), results[0].matched_indices.clone());
    assert_eq!(
        shown.highlights,
        vec![("e\u{301}".to_string(), false), ("abc".to_string(), true)]
    );
    let results = search.search("e");
    assert_eq!(results.len(), 1);
    assert_eq!(results[0].matched_indices, vec![0, 1]);
    let shown = SearchResult::new(results[0].text.clone(), results[0].matched_indices.clone());
    assert_eq!(
        shown.highlights,
        vec![("e\u{301}".to_string(), true), ("abc".to_string(), false)]
    );
}

#[test]
fn clusters_behind_a_long_cluster_keep_their_characters() {
    let text = "x\u{1F468}\u{200D}\u{1F469}\u{200D}\u{1F467}/main.rs";
    let mut search = engine(&[text]);
    let results = search.search("main");
    assert_eq!(results.len(), 1);
    assert_eq!(results[0].matched_indices, vec![7, 8, 9, 10]);
    let shown = SearchResult::new(results[0].text.clone(), results[0].matched_indices.clone());
    assert_eq!(shown.highlights[1], ("main".to_string(), true));
    assert_eq!(shown.highlights[2], (".rs".to_string(), false));
}

#[test]
fn line_ends_in_an_ascii_text_count_as_two_characters() {
    let mut search = engine(&["a\r\nb"]);
    let results = search.search("b");
    assert_eq!(results.len(), 1);
    assert_eq!(results[0].matched_indices, vec![3]);
}

#[test]
fn line_ends_in_another_text_are_one_cluster() {
    let mut search = engine(&["\u{e9}\r\nb"]);
    let results = search.search("b");
    assert_eq!(results.len(), 1);
    assert_eq!(results[0].matched_indices, vec![3]);
}

#[test]
fn a_pair_on_which_the_matcher_disagrees_with_itself_is_not_matched() {
    let mut search = engine(&["\u{17f}xs\u{e9}", "xs\u{e9}", "plain"]);
    let results = search.search("s\u{e9}");
    assert_eq!(found(&results), vec!["xs\u{e9}"]);
    assert_eq!(results[0].identity, 1);
    assert_eq!(results[0].matched_indices, vec![1, 2]);
}

#[test]
fn a_word_with_upper_case_is_matched_against_a_long_s() {
    let mut search = engine(&["\u{17f}xS\u{e9}", "\u{17f}xs\u{e9}"]);
    let results = search.search("S\u{e9}");
    assert_eq!(found(&results), vec!["\u{17f}xS\u{e9}"]);
    assert_eq!(results[0].matched_indices, vec![2, 3]);
}

#[test]
fn ignoring_case_keeps_the_pair_from_the_matcher_too() {
    let mut search = Search::with_case_policy(CasePolicy::Ignore);
    search.update_index(texts(&["\u{17f}xS\u{e9}", "xS\u{e9}"]));
    let results = search.search("S\u{e9}");
    assert_eq!(found(&results), vec!["xS\u{e9}"]);
}

#[test]
fn a_plain_word_is_matched_against_a_long_s() {
    let mut search = engine(&["\u{17f}xs\u{e9}"]);
    assert_eq!(search.search("xs").len(), 1);
    assert_eq!(search.search("s").len(), 1);
    assert_eq!(search.search("e").len(), 1);
}

#[test]
fn a_word_in_need_of_normalizing_is_matched_against_other_texts() {
    let mut search = engine(&["caf\u{e9}.md", "cafe.md", "CAF\u{c9}.md"]);
    let results = search.search("caf\u{e9}");
    assert_eq!(found(&results), vec!["caf\u{e9}.md", "CAF\u{c9}.md"]);
}
