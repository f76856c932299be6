use crossword::grid::{check_place, initialize_grid, place_word};
use crossword::placer::{
    find_first_fit, generate_crossword, place_word_near, place_words_greedy,
    place_words_sequential,
};
use crossword::scorer::calculate_compactness;
use crossword::words::{extract_words, parse_token, tokenize, SourceError, SourceMode};

fn lines_of(text: &str) -> Vec<String> {
    text.lines().map(|l| l.to_string()).collect()
}

fn strings(words: &[&str]) -> Vec<String> {
    words.iter().map(|w| w.to_string()).collect()
}

#[test]
fn place_word_commits_whole_run() {
    let mut g = initialize_grid(5);
    assert!(place_word(&mut g, "cat", 0, 0, false));
    assert_eq!(g.get(0, 0), 'c');
    assert_eq!(g.get(0, 1), 'a');
    assert_eq!(g.get(0, 2), 't');
    assert_eq!(g.get(1, 0), ' ');
}

#[test]
fn overlap_must_agree_character_for_character() {
    let mut g = initialize_grid(5);
    assert!(place_word(&mut g, "cat", 0, 0, false));
    // "cow" shares its 'c' with "cat" at (0, 0) and is accepted.
    assert!(place_word(&mut g, "cow", 0, 0, true));
    assert_eq!(g.get(0, 0), 'c');
    assert_eq!(g.get(1, 0), 'o');
    assert_eq!(g.get(2, 0), 'w');
    assert_eq!(g.get(0, 1), 'a');
    assert_eq!(g.get(0, 2), 't');
}

#[test]
fn rejected_conflict_leaves_grid_untouched() {
    let mut g = initialize_grid(5);
    assert!(place_word(&mut g, "cat", 0, 0, false));
    let snapshot = g.clone();
    // 'd' conflicts with the 'c' already at (0, 0).
    assert!(!place_word(&mut g, "dog", 0, 0, false));
    assert_eq!(g, snapshot);
}

#[test]
fn rejected_out_of_bounds_leaves_grid_untouched() {
    let mut g = initialize_grid(5);
    assert!(place_word(&mut g, "cat", 2, 2, false));
    let snapshot = g.clone();
    // The run would leave the 5x5 grid.
    assert!(!place_word(&mut g, "horse", 3, 3, true));
    assert!(!place_word(&mut g, "horse", 3, 3, false));
    assert_eq!(g, snapshot);
}

#[test]
fn check_place_does_not_mutate() {
    let g = initialize_grid(5);
    assert!(check_place(&g, "cat", 0, 0, true));
    assert!(!check_place(&g, "horse", 3, 3, true));
    assert_eq!(g, initialize_grid(5));
}

#[test]
fn blank_grid_scores_zero() {
    let g = initialize_grid(7);
    assert_eq!(calculate_compactness(&g), 0);
}

#[test]
fn compactness_is_bounding_box_area() {
    let mut g = initialize_grid(6);
    assert!(place_word(&mut g, "ab", 1, 1, false));
    assert!(place_word(&mut g, "cd", 3, 2, false));
    // Non-blank cells span rows 1..=3 and columns 1..=3: area 3 * 3.
    assert_eq!(calculate_compactness(&g), 9);
}

#[test]
fn compactness_single_cell() {
    let mut g = initialize_grid(4);
    assert!(place_word(&mut g, "x", 2, 3, true));
    assert_eq!(calculate_compactness(&g), 1);
}

#[test]
fn compactness_invariant_under_padding() {
    let mut small = initialize_grid(5);
    let mut big = initialize_grid(12);
    for g in [&mut small, &mut big] {
        assert!(place_word(g, "cat", 1, 0, false));
        assert!(place_word(g, "cow", 1, 0, true));
    }
    assert_eq!(calculate_compactness(&small), calculate_compactness(&big));
}

#[test]
fn length_prefixed_source_validates_lengths() {
    let lines = lines_of("3 cat\n5 horse\n2 cat");
    let words = extract_words(&lines, SourceMode::LengthPrefixed).unwrap();
    // The last line is rejected: "cat" has length 3, not 2.
    assert_eq!(words, strings(&["cat", "horse"]));
}

#[test]
fn length_prefixed_source_rejects_bad_prefixes() {
    let lines = lines_of("x cat\n99999999999999999999999 cat\n5 horse\n3 cat extra\n3 CAT");
    let words = extract_words(&lines, SourceMode::LengthPrefixed).unwrap();
    assert_eq!(words, strings(&["horse", "cat"]));
}

#[test]
fn first_token_source_keeps_order_and_repeats() {
    let lines = lines_of("Apple pie\n\nBanana\napple");
    let words = extract_words(&lines, SourceMode::FirstToken).unwrap();
    assert_eq!(words, strings(&["apple", "banana", "apple"]));
}

#[test]
fn second_token_source_skips_short_lines() {
    let lines = lines_of("1 Apple\nnope\n2 Banana extra");
    let words = extract_words(&lines, SourceMode::SecondToken).unwrap();
    assert_eq!(words, strings(&["apple", "banana"]));
}

#[test]
fn dedup_source_keeps_first_arrival() {
    let lines = lines_of("1 CAT\n2 dog\n3 Cat\n4 DOG\n5 bird");
    let words = extract_words(&lines, SourceMode::SecondTokenDedup).unwrap();
    assert_eq!(words, strings(&["cat", "dog", "bird"]));
}

#[test]
fn empty_source_is_a_data_error() {
    let lines = lines_of("onlyone\n\n  ");
    let res = extract_words(&lines, SourceMode::SecondToken);
    assert!(matches!(res, Err(SourceError::NoValidWords)));
}

#[test]
fn tokenize_splits_on_whitespace() {
    let toks = tokenize("  a \t bb  ");
    assert_eq!(toks, strings(&["a", "bb"]));
    assert_eq!(tokenize(""), Vec::<String>::new());
    assert_eq!(tokenize("one"), strings(&["one"]));
}

#[test]
fn parse_token_reads_decimal_or_zero() {
    assert_eq!(parse_token("123"), 123);
    assert_eq!(parse_token("003"), 3);
    assert_eq!(parse_token(""), 0);
    assert_eq!(parse_token("12a"), 0);
    assert_eq!(parse_token("99999999999999999999999"), 0);
}

#[test]
fn greedy_first_fit_lands_at_origin_vertical() {
    let g = initialize_grid(5);
    // Scan order tries (0, 0) first, vertical before horizontal.
    assert_eq!(find_first_fit(&g, "ab"), Some((0, 0, true)));
    let mut g = g;
    assert!(place_word_near(&mut g, "ab"));
    assert_eq!(g.get(0, 0), 'a');
    assert_eq!(g.get(1, 0), 'b');
}

#[test]
fn greedy_scan_finds_later_fits() {
    let mut g = initialize_grid(2);
    assert!(place_word(&mut g, "ab", 0, 0, true));
    assert!(place_word(&mut g, "cd", 0, 1, true));
    // The grid is full; "xy" conflicts everywhere.
    assert_eq!(find_first_fit(&g, "xy"), None);
    // "ac" matches the top row as it stands.
    assert_eq!(find_first_fit(&g, "ac"), Some((0, 0, false)));
}

#[test]
fn greedy_reports_per_word() {
    let mut g = initialize_grid(3);
    let words = strings(&["abc", "xyz", "aq"]);
    let reports = place_words_greedy(&mut g, &words);
    assert_eq!(reports, vec![true, true, true]);
    assert_eq!(g.get(0, 0), 'a');
    assert_eq!(g.get(1, 0), 'b');
    assert_eq!(g.get(2, 0), 'c');
    assert_eq!(g.get(0, 1), 'x');
    assert_eq!(g.get(2, 1), 'z');
    assert_eq!(g.get(0, 2), 'a');
    assert_eq!(g.get(1, 2), 'q');
}

#[test]
fn sequential_policy_steps_the_cursor_regardless() {
    let mut g = initialize_grid(20);
    let words = strings(&["a", "bb", "ccc"]);
    let attempts = place_words_sequential(&mut g, &words, 5, 5, 2, 2);
    assert_eq!(attempts.len(), 3);
    assert_eq!(
        (attempts[0].row, attempts[0].col, attempts[0].vertical),
        (5, 5, true)
    );
    assert_eq!(
        (attempts[1].row, attempts[1].col, attempts[1].vertical),
        (7, 7, false)
    );
    assert_eq!(
        (attempts[2].row, attempts[2].col, attempts[2].vertical),
        (9, 9, true)
    );
    assert!(attempts.iter().all(|a| a.placed));
    assert_eq!(g.get(5, 5), 'a');
    assert_eq!(g.get(7, 7), 'b');
    assert_eq!(g.get(7, 8), 'b');
    assert_eq!(g.get(9, 9), 'c');
    assert_eq!(g.get(11, 9), 'c');
}

#[test]
fn sequential_policy_reports_failures_and_continues() {
    let mut g = initialize_grid(6);
    let words = strings(&["aa", "bb"]);
    let attempts = place_words_sequential(&mut g, &words, 5, 5, 2, 2);
    // (5, 5) vertical runs off the 6x6 grid; the cursor then leaves it.
    assert!(!attempts[0].placed);
    assert!(!attempts[1].placed);
    assert_eq!(calculate_compactness(&g), 0);
}

#[test]
fn too_long_word_fails_under_every_policy() {
    let mut g = initialize_grid(5);
    assert!(!place_word(&mut g, "abcdef", 0, 0, true));
    assert!(!place_word(&mut g, "abcdef", 0, 0, false));
    assert_eq!(find_first_fit(&g, "abcdef"), None);
    assert!(!place_word_near(&mut g, "abcdef"));
    let reports = place_words_greedy(&mut g, &strings(&["abcdef"]));
    assert_eq!(reports, vec![false]);
    let attempts = place_words_sequential(&mut g, &strings(&["abcdef"]), 0, 0, 2, 2);
    assert!(!attempts[0].placed);
    assert_eq!(g, initialize_grid(5));
}

#[test]
fn generate_crossword_lays_one_word_per_row() {
    let words = strings(&["cat", "a"]);
    let g = generate_crossword(&words);
    // Dimension is max(longest word, word count) = 3.
    assert_eq!(g.size(), 3);
    assert_eq!(g.get(0, 0), 'c');
    assert_eq!(g.get(0, 1), 'a');
    assert_eq!(g.get(0, 2), 't');
    assert_eq!(g.get(1, 0), 'a');
    assert_eq!(g.get(1, 1), ' ');
    assert_eq!(g.get(2, 0), ' ');
    assert_eq!(calculate_compactness(&g), 6);
}

#[test]
fn generate_crossword_of_nothing_is_empty() {
    let g = generate_crossword(&Vec::<String>::new());
    assert_eq!(g.size(), 0);
}

#[test]
fn empty_word_places_anywhere_without_effect() {
    let mut g = initialize_grid(3);
    let snapshot = g.clone();
    assert!(place_word(&mut g, "", 0, 0, true));
    assert!(place_word(&mut g, "", 2, 2, false));
    assert_eq!(g, snapshot);
}
