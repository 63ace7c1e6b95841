use dialog_core::scorer::{score, Scoring};

fn cfg(consecutive: u32, word_start: u32, distance: u32) -> Scoring {
    Scoring {
        consecutive_bonus: consecutive,
        word_start_bonus: word_start,
        distance_penalty: distance,
    }
}

#[test]
fn empty_query_scores_zero() {
    let g = cfg(5, 7, 3);
    assert_eq!(score("", "candidate", &g), Some(0));
    assert_eq!(score("", "x", &g), Some(0));
}

#[test]
fn empty_query_empty_candidate() {
    let g = cfg(5, 7, 3);
    assert_eq!(score("", "", &g), Some(0));
}

#[test]
fn non_subsequence_is_no_match() {
    let g = cfg(5, 7, 3);
    assert_eq!(score("xyz", "abc", &g), None);
    // Characters may not be reused.
    assert_eq!(score("aa", "a", &g), None);
    // Order matters.
    assert_eq!(score("ba", "ab", &g), None);
    // A non-empty query never matches an empty candidate.
    assert_eq!(score("a", "", &g), None);
}

#[test]
fn exact_match_value() {
    // "ab" against "ab": 16 + 7 (word start) for 'a', then 16 + 5
    // (consecutive) for 'b'.
    let g = cfg(5, 7, 3);
    assert_eq!(score("ab", "ab", &g), Some(44));
}

#[test]
fn gap_penalty_value() {
    // "ac" against "abc": 16 + 7 for 'a' at the start, then 16 - 3 for 'c'
    // after skipping 'b'.
    let g = cfg(5, 7, 3);
    assert_eq!(score("ac", "abc", &g), Some(36));
}

#[test]
fn word_start_bonus_after_separator() {
    // 'b' in "a b" begins a word (preceded by a space): 16 + 100.
    let g = cfg(0, 100, 0);
    assert_eq!(score("b", "a b", &g), Some(116));
}

#[test]
fn no_word_start_bonus_inside_word() {
    // 'b' in "ab" is preceded by an alphanumeric character: base only.
    let g = cfg(0, 100, 0);
    assert_eq!(score("b", "ab", &g), Some(16));
}

#[test]
fn best_alignment_not_first_alignment() {
    // "ab" in "axab": the greedy first match (positions 0 and 3) earns
    // 16 + 16 - 2 = 30; the best one (positions 2 and 3) earns
    // 16 + 16 + 10 = 42. The maximum must be returned.
    let g = cfg(10, 0, 1);
    assert_eq!(score("ab", "axab", &g), Some(42));
}

#[test]
fn consecutive_run_beats_spread_match() {
    // With a distance penalty, a contiguous run outranks the same
    // characters spread out: 16 + 144 + 144 against 16 + 15 + 15.
    let g = cfg(128, 0, 1);
    let contiguous = score("abc", "xabcx", &g).unwrap();
    let spread = score("abc", "a_b_c", &g).unwrap();
    assert_eq!(contiguous, 304);
    assert_eq!(spread, 46);
    assert!(contiguous > spread);
}

#[test]
fn matching_is_case_insensitive() {
    let g = cfg(5, 7, 3);
    assert!(score("ABC", "abc", &g).is_some());
    assert!(score("abc", "ABC", &g).is_some());
    assert_eq!(score("AbC", "aBc", &g), score("abc", "abc", &g));
}

#[test]
fn case_insensitive_beyond_ascii() {
    // Cyrillic case folding: six characters at 16 each, no bonuses.
    let g = cfg(0, 0, 0);
    assert_eq!(score("ПРИВІТ", "привіт", &g), Some(96));
}

#[test]
fn literal_substring_always_matches() {
    let g = cfg(128, 0, 1);
    assert!(score("lo the", "hello there", &g).is_some());
    assert!(score("hello", "say hello!", &g).is_some());
}

#[test]
fn negative_score_possible_under_heavy_penalty() {
    // "ab" against "a⋯b" with a huge gap: 16 + 16 + 0 - 4 * 3 = 20, still
    // positive; with distance 40: 16 + 16 - 120 < 0.
    let g = cfg(0, 0, 40);
    assert_eq!(score("ab", "axxxb", &g), Some(32 - 120));
}
