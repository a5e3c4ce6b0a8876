use unbox::puzzle::{
    find_side, is_lowercase, letters_of, puzzle_of, side_validator, validate, Puzzle,
};

fn fixture() -> Puzzle {
    puzzle_of("uoa", "qtl", "ein", "ysm")
}

#[test]
fn test_validate() {
    let puzzle: Puzzle = [
        letters_of("uoa"),
        letters_of("qtl"),
        letters_of("ein"),
        letters_of("ysm"),
    ];
    assert!(validate("melony", &puzzle));
    assert!(validate("yeast", &puzzle));
    assert!(validate("tequila", &puzzle));
    assert!(!validate("quinoa", &puzzle));
}

#[test]
fn validate_rejects_letter_outside_puzzle() {
    let puzzle = fixture();
    assert!(!validate("zeal", &puzzle));
    assert!(!validate("tez", &puzzle));
    assert!(!validate("tequilab", &puzzle));
    assert!(!validate("x", &puzzle));
}

#[test]
fn validate_rejects_two_letters_of_one_side() {
    let puzzle = fixture();
    assert!(!validate("ou", &puzzle));
    assert!(!validate("tequilaa", &puzzle));
    assert!(validate("yes", &puzzle));
    assert!(!validate("my", &puzzle));
    assert!(!validate("aa", &puzzle));
    assert!(validate("a", &puzzle));
    assert!(validate("at", &puzzle));
}

#[test]
fn validate_rejects_empty_word() {
    assert!(!validate("", &fixture()));
}

#[test]
fn validate_takes_lowest_side_for_shared_letter() {
    let puzzle = puzzle_of("abc", "ade", "fgh", "ijk");
    assert!(validate("aa", &puzzle));
    assert!(validate("aaa", &puzzle));
    assert!(validate("ba", &puzzle));
    assert!(validate("bad", &puzzle) == false);
    assert!(!validate("ab", &puzzle));
    assert!(validate("da", &puzzle));
    assert!(validate("dab", &puzzle) == false);
    assert!(validate("af", &puzzle));
}

#[test]
fn find_side_gives_lowest_side_or_four() {
    let puzzle = puzzle_of("abc", "ade", "fgh", "ijk");
    assert_eq!(find_side(&puzzle, 'a', 4), 0);
    assert_eq!(find_side(&puzzle, 'a', 0), 1);
    assert_eq!(find_side(&puzzle, 'a', 1), 0);
    assert_eq!(find_side(&puzzle, 'k', 4), 3);
    assert_eq!(find_side(&puzzle, 'k', 3), 4);
    assert_eq!(find_side(&puzzle, 'z', 4), 4);
}

#[test]
fn side_validator_accepts_three_different_letters() {
    assert_eq!(side_validator("uoa"), Ok(()));
    assert_eq!(side_validator("ysm"), Ok(()));
    assert_eq!(side_validator("azm"), Ok(()));
}

#[test]
fn side_validator_refuses_other_text() {
    let message = "puzzle sides must be three unique letters (one side of a puzzle)".to_string();
    assert_eq!(side_validator(""), Err(message.clone()));
    assert_eq!(side_validator("ab"), Err(message.clone()));
    assert_eq!(side_validator("aab"), Err(message.clone()));
    assert_eq!(side_validator("aaa"), Err(message.clone()));
    assert_eq!(side_validator("abcd"), Err(message.clone()));
    assert_eq!(side_validator("\u{e9}a"), Err(message.clone()));
    assert_eq!(side_validator("12!"), Err(message.clone()));
    assert_eq!(side_validator("A1!"), Err(message.clone()));
    assert_eq!(side_validator("ABC"), Err(message.clone()));
    assert_eq!(side_validator("aBc"), Err(message.clone()));
    assert_eq!(side_validator("ab "), Err(message.clone()));
    assert_eq!(side_validator("ab{"), Err(message.clone()));
    assert_eq!(side_validator("`ab"), Err(message.clone()));
    assert_eq!(side_validator("\u{e9}ab"), Err(message));
}

#[test]
fn is_lowercase_from_a_to_z() {
    assert!(is_lowercase('a'));
    assert!(is_lowercase('m'));
    assert!(is_lowercase('z'));
    assert!(!is_lowercase('A'));
    assert!(!is_lowercase('`'));
    assert!(!is_lowercase('{'));
    assert!(!is_lowercase('1'));
    assert!(!is_lowercase('\u{e9}'));
}
