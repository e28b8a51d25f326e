use acronym_search::phrase::Phrase;
use acronym_search::spans::deduplicate_word_match;
use acronym_search::tiling::find_word_matches;

fn pattern(text: &str) -> Phrase {
    Phrase { words: Vec::new(), pattern: text.to_string() }
}

#[test]
fn test_word_matches() {
    let phrases = vec![
        Phrase { words: Vec::new(), pattern: "ab".to_string() },
        Phrase { words: Vec::new(), pattern: "b".to_string() },
        Phrase { words: Vec::new(), pattern: "c".to_string() },
    ];
    let word = "ababc";

    let result = find_word_matches(&phrases, word);
    let expected = vec![
        vec![Some(0), Some(0), None, Some(1), Some(2)],
        vec![None, Some(1), Some(0), Some(0), Some(2)],
    ];
    assert_eq!(result, expected);
}

#[test]
fn test_deduplication() {
    let mut vec = vec![Some(0), Some(0), None, None, Some(1), Some(1), None];
    deduplicate_word_match(&mut vec);
    let expected = vec![Some(0), None, None, Some(1), None];
    assert_eq!(vec, expected);
}

#[test]
fn no_phrases_give_one_tiling_of_wildcards() {
    let phrases: Vec<Phrase> = Vec::new();
    assert_eq!(find_word_matches(&phrases, "abc"), vec![vec![None, None, None]]);
}

#[test]
fn empty_word_without_phrases_gives_the_empty_tiling() {
    let phrases: Vec<Phrase> = Vec::new();
    let expected: Vec<Vec<Option<usize>>> = vec![Vec::new()];
    assert_eq!(find_word_matches(&phrases, ""), expected);
}

#[test]
fn empty_word_with_a_phrase_has_no_tiling() {
    let phrases = vec![pattern("a")];
    let expected: Vec<Vec<Option<usize>>> = Vec::new();
    assert_eq!(find_word_matches(&phrases, ""), expected);
}

#[test]
fn a_pattern_that_does_not_occur_leaves_no_tiling() {
    let phrases = vec![pattern("a"), pattern("z")];
    let expected: Vec<Vec<Option<usize>>> = Vec::new();
    assert_eq!(find_word_matches(&phrases, "banana"), expected);
}

#[test]
fn every_start_position_is_tried_even_where_occurrences_overlap() {
    let phrases = vec![pattern("aa")];
    let expected = vec![vec![Some(0), Some(0), None], vec![None, Some(0), Some(0)]];
    assert_eq!(find_word_matches(&phrases, "aaa"), expected);
}

#[test]
fn tilings_come_by_ascending_position() {
    let phrases = vec![pattern("a")];
    let expected = vec![
        vec![Some(0), None, None, None, None],
        vec![None, None, Some(0), None, None],
        vec![None, None, None, None, Some(0)],
    ];
    assert_eq!(find_word_matches(&phrases, "axaxa"), expected);
}

#[test]
fn only_the_first_character_of_a_placement_must_be_free() {
    // Known quirk: the later pattern takes over a character that the
    // earlier pattern had claimed.
    let phrases = vec![pattern("ab"), pattern("xa")];
    let expected = vec![vec![Some(1), Some(1), Some(0)]];
    assert_eq!(find_word_matches(&phrases, "xab"), expected);
}

#[test]
fn a_later_pattern_can_take_over_a_whole_earlier_one() {
    let phrases = vec![pattern("a"), pattern("xa")];
    let expected = vec![vec![Some(1), Some(1), None]];
    assert_eq!(find_word_matches(&phrases, "xab"), expected);
}

#[test]
fn a_claimed_start_is_not_used_again() {
    let phrases = vec![pattern("ab"), pattern("b")];
    let expected: Vec<Vec<Option<usize>>> = Vec::new();
    assert_eq!(find_word_matches(&phrases, "ab"), expected);
}

#[test]
fn every_tiling_has_one_slot_per_character_and_valid_indices() {
    let phrases = vec![pattern("a"), pattern("n"), pattern("a")];
    let word = "banana";
    let tilings = find_word_matches(&phrases, word);
    assert!(!tilings.is_empty());
    for tiling in &tilings {
        assert_eq!(tiling.len(), word.chars().count());
        for slot in tiling {
            if let Some(index) = slot {
                assert!(*index < phrases.len());
            }
        }
    }
}

#[test]
fn slots_are_counted_in_characters() {
    let phrases = vec![pattern("é")];
    assert_eq!(find_word_matches(&phrases, "été"), vec![
        vec![Some(0), None, None],
        vec![None, None, Some(0)],
    ]);
}

#[test]
fn collapsing_keeps_different_neighbours_apart() {
    let mut slots = vec![Some(0), Some(1), Some(1), None, None, Some(1)];
    deduplicate_word_match(&mut slots);
    assert_eq!(slots, vec![Some(0), Some(1), None, None, Some(1)]);
}

#[test]
fn collapsing_nothing_gives_nothing() {
    let mut slots: Vec<Option<usize>> = Vec::new();
    deduplicate_word_match(&mut slots);
    assert_eq!(slots, Vec::<Option<usize>>::new());
}

#[test]
fn collapsing_keeps_every_wildcard() {
    let mut slots: Vec<Option<usize>> = vec![None, None, None];
    deduplicate_word_match(&mut slots);
    assert_eq!(slots, vec![None, None, None]);
}

#[test]
fn collapsing_a_run_after_a_wildcard() {
    let mut slots = vec![None, Some(2), Some(2), Some(2)];
    deduplicate_word_match(&mut slots);
    assert_eq!(slots, vec![None, Some(2)]);
}
