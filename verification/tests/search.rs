use unbox::index::{slot_of_letter, DictionaryIndex};
use unbox::puzzle::{puzzle_of, Puzzle};
use unbox::search::{
    all_letters, best_in_bucket, remove_letters, shorter_word_string, solve, word_strings_recurse,
};

fn fixture() -> Puzzle {
    puzzle_of("uoa", "qtl", "ein", "ysm")
}

fn fixture_words() -> Vec<&'static str> {
    vec![
        "tequila", "ale", "melony", "yeast", "quinoa", "at", "anyosom", "zebra", "tea", "",
    ]
}

#[test]
fn slot_of_letter_counts_from_a() {
    assert_eq!(slot_of_letter('a'), Some(0));
    assert_eq!(slot_of_letter('t'), Some(19));
    assert_eq!(slot_of_letter('z'), Some(25));
    assert_eq!(slot_of_letter('A'), None);
    assert_eq!(slot_of_letter('`'), None);
    assert_eq!(slot_of_letter('{'), None);
    assert_eq!(slot_of_letter('\u{e9}'), None);
}

#[test]
fn build_buckets_valid_words_by_first_letter() {
    let puzzle = fixture();
    let words = fixture_words();
    let index = DictionaryIndex::build(&words, &puzzle);
    assert_eq!(index.buckets.len(), 26);
    assert_eq!(index.buckets[0], vec!["ale", "anyosom"]);
    assert_eq!(index.buckets[12], vec!["melony"]);
    assert_eq!(index.buckets[19], vec!["tequila", "tea"]);
    assert_eq!(index.buckets[24], vec!["yeast"]);
    let kept: usize = index.buckets.iter().map(|b| b.len()).sum();
    assert_eq!(kept, 6);
    assert!(index.buckets[16].is_empty());
    assert!(index.buckets[25].is_empty());
}

#[test]
fn build_keeps_dictionary_order_in_a_bucket() {
    let puzzle = fixture();
    let words = vec!["tea", "anyosom", "tequila", "ale", "tea"];
    let index = DictionaryIndex::build(&words, &puzzle);
    assert_eq!(index.buckets[19], vec!["tea", "tequila", "tea"]);
    assert_eq!(index.buckets[0], vec!["anyosom", "ale"]);
}

#[test]
fn shorter_word_string_keeps_first_of_equal_length() {
    assert_eq!(shorter_word_string(None, vec!["a", "b"]), Some(vec!["a", "b"]));
    assert_eq!(
        shorter_word_string(Some(vec!["a", "b"]), vec!["c", "d"]),
        Some(vec!["a", "b"])
    );
    assert_eq!(
        shorter_word_string(Some(vec!["a", "b"]), vec!["c"]),
        Some(vec!["c"])
    );
    assert_eq!(
        shorter_word_string(Some(vec!["a"]), vec!["c", "d"]),
        Some(vec!["a"])
    );
    assert_eq!(shorter_word_string(None, vec![]), Some(vec![]));
}

#[test]
fn solve_returns_the_two_word_chain() {
    let puzzle = fixture();
    let words = fixture_words();
    let index = DictionaryIndex::build(&words, &puzzle);
    assert_eq!(solve(&index, &puzzle, 4), Some(vec!["tequila", "anyosom"]));
    assert_eq!(solve(&index, &puzzle, 3), Some(vec!["tequila", "anyosom"]));
    assert_eq!(solve(&index, &puzzle, 8), Some(vec!["tequila", "anyosom"]));
}

#[test]
fn solve_finds_longer_chain_when_no_shorter_exists() {
    let puzzle = fixture();
    let words = vec!["tequila", "ale", "melony", "yeast", "tea"];
    let index = DictionaryIndex::build(&words, &puzzle);
    assert_eq!(
        solve(&index, &puzzle, 4),
        Some(vec!["melony", "yeast", "tequila"])
    );
    assert_eq!(solve(&index, &puzzle, 3), None);
}

#[test]
fn solve_twice_gives_the_same_chain() {
    let puzzle = fixture();
    let words = fixture_words();
    let index = DictionaryIndex::build(&words, &puzzle);
    let first = solve(&index, &puzzle, 4);
    let second = solve(&index, &puzzle, 4);
    assert_eq!(first, second);
    let again = DictionaryIndex::build(&words, &puzzle);
    assert_eq!(solve(&again, &puzzle, 4), first);
}

#[test]
fn solve_breaks_ties_by_alphabet_then_bucket_order() {
    let puzzle = fixture();
    let words = vec!["tequila", "mequilat", "anyosom", "anoyosom"];
    let index = DictionaryIndex::build(&words, &puzzle);
    assert_eq!(solve(&index, &puzzle, 4), Some(vec!["anyosom", "mequilat"]));
    let words = vec!["tequila", "anoyosom", "anyosom"];
    let index = DictionaryIndex::build(&words, &puzzle);
    assert_eq!(solve(&index, &puzzle, 4), Some(vec!["tequila", "anoyosom"]));
}

#[test]
fn solve_with_one_word_allowed() {
    let puzzle = fixture();
    let words = vec!["tequila", "anyosom", "tequilanyosom"];
    let index = DictionaryIndex::build(&words, &puzzle);
    assert_eq!(solve(&index, &puzzle, 1), Some(vec!["tequilanyosom"]));
    assert_eq!(solve(&index, &puzzle, 4), Some(vec!["tequilanyosom"]));
    let words = vec!["tequila", "anyosom"];
    let index = DictionaryIndex::build(&words, &puzzle);
    assert_eq!(solve(&index, &puzzle, 1), None);
    assert_eq!(solve(&index, &puzzle, 2), None);
    assert_eq!(solve(&index, &puzzle, 0), None);
    assert_eq!(solve(&index, &puzzle, -5), None);
    assert_eq!(solve(&index, &puzzle, 3), Some(vec!["tequila", "anyosom"]));
}

#[test]
fn solve_on_empty_dictionary_finds_nothing() {
    let puzzle = fixture();
    let none: Vec<&str> = Vec::new();
    let index = DictionaryIndex::build(&none, &puzzle);
    assert_eq!(solve(&index, &puzzle, 4), None);
    assert_eq!(solve(&index, &puzzle, 1), None);
    let filtered = vec!["quinoa", "zebra", "at", "xx"];
    let index = DictionaryIndex::build(&filtered, &puzzle);
    assert_eq!(solve(&index, &puzzle, 4), None);
    assert_eq!(solve(&index, &puzzle, 127), None);
}

fn letters_left(chain: &[&str]) -> usize {
    "uoaqtleinysm"
        .chars()
        .filter(|c| !chain.iter().any(|w| w.contains(*c)))
        .count()
}

fn shortest_by_enumeration(words: &[&str], limit: usize) -> Option<usize> {
    let mut chains: Vec<Vec<&str>> = words.iter().map(|w| vec![*w]).collect();
    for length in 1..=limit {
        if chains.iter().any(|c| letters_left(c) == 0) {
            return Some(length);
        }
        let mut longer = Vec::new();
        for chain in &chains {
            let last = chain[chain.len() - 1].chars().last().unwrap();
            for w in words {
                if w.starts_with(last) {
                    let mut next = chain.clone();
                    next.push(*w);
                    longer.push(next);
                }
            }
        }
        chains = longer;
    }
    None
}

#[test]
fn solve_is_minimal_against_enumeration() {
    let puzzle = fixture();
    let dictionaries: Vec<Vec<&str>> = vec![
        vec!["tequila", "ale", "melony", "yeast", "anyosom", "tea"],
        vec!["tequila", "ale", "melony", "yeast", "tea"],
        vec!["melony", "yeast", "tea", "ale"],
        vec!["tequilanyosom", "tequila", "anyosom"],
        vec!["mequilat", "tequila", "anyosom", "melony", "yeast"],
    ];
    for words in &dictionaries {
        for max_words in 1..=5i8 {
            let index = DictionaryIndex::build(words, &puzzle);
            let limit = if max_words <= 2 { 1 } else { (max_words - 1) as usize };
            let expected = shortest_by_enumeration(words, limit);
            let found = solve(&index, &puzzle, max_words);
            assert_eq!(found.as_ref().map(|c| c.len()), expected);
            if let Some(chain) = found {
                assert_eq!(letters_left(&chain), 0);
                for pair in chain.windows(2) {
                    assert_eq!(pair[0].chars().last(), pair[1].chars().next());
                }
                for w in &chain {
                    assert!(words.contains(w));
                }
            }
        }
    }
}

#[test]
fn word_strings_recurse_from_one_word() {
    let puzzle = fixture();
    let words = fixture_words();
    let index = DictionaryIndex::build(&words, &puzzle);
    assert_eq!(
        word_strings_recurse(&index, "tequila", all_letters(&puzzle), 3),
        Some(vec!["tequila", "anyosom"])
    );
    assert_eq!(
        word_strings_recurse(&index, "tequila", all_letters(&puzzle), 2),
        Some(vec!["tequila", "anyosom"])
    );
    assert_eq!(
        word_strings_recurse(&index, "tequila", all_letters(&puzzle), 1),
        None
    );
    assert_eq!(
        word_strings_recurse(&index, "melony", all_letters(&puzzle), 3),
        Some(vec!["melony", "yeast", "tequila"])
    );
    assert_eq!(
        word_strings_recurse(&index, "melony", all_letters(&puzzle), 2),
        None
    );
    assert_eq!(
        word_strings_recurse(&index, "ale", all_letters(&puzzle), 127),
        None
    );
}

#[test]
fn word_strings_recurse_stops_when_nothing_is_missing() {
    let puzzle = fixture();
    let words = fixture_words();
    let index = DictionaryIndex::build(&words, &puzzle);
    let missing = remove_letters("tequila", all_letters(&puzzle));
    assert_eq!(
        word_strings_recurse(&index, "anyosom", missing, 0),
        Some(vec!["anyosom"])
    );
    let missing = remove_letters("anyosom", all_letters(&puzzle));
    assert_eq!(
        word_strings_recurse(&index, "anyosom", missing, 9),
        Some(vec!["anyosom", "melony", "yeast", "tequila"])
    );
    let missing = remove_letters("anyosom", all_letters(&puzzle));
    assert_eq!(word_strings_recurse(&index, "anyosom", missing, 3), None);
    let missing = remove_letters("tequila", remove_letters("anyosom", all_letters(&puzzle)));
    assert_eq!(
        word_strings_recurse(&index, "ale", missing, i8::MIN),
        Some(vec!["ale"])
    );
}

#[test]
fn best_in_bucket_takes_first_of_the_shortest() {
    let puzzle = fixture();
    let words = vec!["tequila", "ale", "anoyosom", "anyosom", "melony", "yeast"];
    let index = DictionaryIndex::build(&words, &puzzle);
    let missing = remove_letters("tequila", all_letters(&puzzle));
    assert_eq!(
        best_in_bucket(&index, 0, &missing, 1),
        Some(vec!["anoyosom"])
    );
    assert_eq!(best_in_bucket(&index, 1, &missing, 1), None);
    let all = all_letters(&puzzle);
    assert_eq!(
        best_in_bucket(&index, 0, &all, 5),
        Some(vec!["anoyosom", "melony", "yeast", "tequila"])
    );
    assert_eq!(best_in_bucket(&index, 0, &all, 3), None);
    assert_eq!(
        best_in_bucket(&index, 19, &all, 2),
        Some(vec!["tequila", "anoyosom"])
    );
    assert_eq!(
        best_in_bucket(&index, 12, &all, 3),
        Some(vec!["melony", "yeast", "tequila"])
    );
}
