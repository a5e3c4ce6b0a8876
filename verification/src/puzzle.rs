//! The puzzle: four sides of letters, and the validity of a single word.

use crate::letters::{add_letter, count_letters, empty_letters, has_letter, set_chars, Letters};
use vstd::prelude::*;
use vstd::string::*;

verus! {

/// A puzzle is four sides, each a set of letters.
pub type Puzzle = [Letters; 4];

/// The letters of each side, in the order of the sides.
pub open spec fn sides(puzzle: &Puzzle) -> Seq<Set<char>> {
    Seq::new(4, |i: int| set_chars(puzzle[i]))
}

/// The first side at or after `from`, other than `skip`, that holds `c`;
/// the number of sides when there is none.
pub open spec fn first_side_from(sides: Seq<Set<char>>, c: char, skip: int, from: int) -> int
    decreases sides.len() - from,
{
    if from < 0 || from >= sides.len() {
        sides.len() as int
    } else if from != skip && sides[from].contains(c) {
        from
    } else {
        first_side_from(sides, c, skip, from + 1)
    }
}

/// The lowest side other than `skip` that holds `c`; the number of sides when
/// there is none.
pub open spec fn first_side(sides: Seq<Set<char>>, c: char, skip: int) -> int {
    first_side_from(sides, c, skip, 0)
}

/// The side on which the walk along `word` stands after its first `k`
/// letters. Before the first letter it is the number of sides (no side is
/// left out for the first letter); the same number after a letter that
/// could not be placed, and from then on.
pub open spec fn side_after(sides: Seq<Set<char>>, word: Seq<char>, k: nat) -> int
    decreases k,
{
    if k == 0 {
        sides.len() as int
    } else {
        let prev = side_after(sides, word, (k - 1) as nat);
        if k > 1 && prev == sides.len() {
            sides.len() as int
        } else {
            first_side(sides, word[k - 1], prev)
        }
    }
}

/// A word is valid when it has a letter and the walk places every letter.
pub open spec fn valid_word(sides: Seq<Set<char>>, word: Seq<char>) -> bool {
    word.len() > 0 && side_after(sides, word, word.len()) < sides.len()
}

/// A sequence cut after one more letter holds what it held before and that
/// letter.
pub proof fn lemma_take_step(s: Seq<char>, i: int)
    requires
        0 <= i < s.len(),
    ensures
        forall|x: char| s.take(i + 1).contains(x) <==> (s.take(i).contains(x) || x == s[i]),
{
    assert forall|x: char| s.take(i + 1).contains(x) <==> (s.take(i).contains(x) || x == s[i]) by {
        if s.take(i + 1).contains(x) {
            let k = s.take(i + 1).index_of(x);
            if k < i {
                assert(s.take(i)[k] == x);
            }
        }
        if s.take(i).contains(x) {
            let k = s.take(i).index_of(x);
            assert(s.take(i + 1)[k] == x);
        }
        if x == s[i] {
            assert(s.take(i + 1)[i] == x);
        }
    }
}

/// The set of the letters of `side`.
pub fn letters_of(side: &str) -> (letters: Letters)
    ensures
        set_chars(letters) == side@.to_set(),
{
    let n: usize = side.unicode_len();
    let mut letters = empty_letters();
    let mut i: usize = 0;
    while i < n
        invariant
            i <= n,
            n == side@.len(),
            forall|x: char| set_chars(letters).contains(x) <==> side@.take(i as int).contains(x),
        decreases n - i,
    {
        let c = side.get_char(i);
        proof {
            lemma_take_step(side@, i as int);
        }
        add_letter(&mut letters, c);
        i += 1;
    }
    assert(side@.take(n as int) =~= side@);
    assert(set_chars(letters) =~= side@.to_set());
    letters
}

/// Whether `c` is a lowercase letter from `a` to `z`.
pub open spec fn lowercase(c: char) -> bool {
    'a' <= c <= 'z'
}

/// What a side must be: three lowercase letters, no two of them the same.
pub open spec fn is_side(side: &str) -> bool {
    &&& side@.len() == 3
    &&& side@.to_set().len() == 3
    &&& forall|i: int| 0 <= i < side@.len() ==> lowercase(#[trigger] side@[i])
}

/// Whether `c` is a lowercase letter from `a` to `z`.
pub fn is_lowercase(c: char) -> (b: bool)
    ensures
        b == lowercase(c),
{
    'a' <= c && c <= 'z'
}

/// Accepts a side of three different lowercase letters, and refuses any other
/// text with a message that says what a side is.
pub fn side_validator(side: &str) -> (r: Result<(), String>)
    ensures
        r is Ok <==> is_side(side),
        r is Err ==> r->Err_0@ == "puzzle sides must be three unique letters (one side of a puzzle)"@,
{
    let n: usize = side.unicode_len();
    let mut letters_only = true;
    let mut i: usize = 0;
    while i < n
        invariant
            i <= n,
            n == side@.len(),
            letters_only == (forall|m: int| 0 <= m < i ==> lowercase(#[trigger] side@[m])),
        decreases n - i,
    {
        if !is_lowercase(side.get_char(i)) {
            letters_only = false;
        }
        i += 1;
    }
    let letters = letters_of(side);
    if n != 3 || !letters_only || count_letters(&letters) != 3 {
        Err(String::from_str("puzzle sides must be three unique letters (one side of a puzzle)"))
    } else {
        Ok(())
    }
}

/// The puzzle with the letters of the four texts as its sides, in their
/// order.
pub fn puzzle_of(first: &str, second: &str, third: &str, fourth: &str) -> (puzzle: Puzzle)
    ensures
        sides(&puzzle) == seq![first@.to_set(), second@.to_set(), third@.to_set(), fourth@.to_set()],
{
    let puzzle = [letters_of(first), letters_of(second), letters_of(third), letters_of(fourth)];
    assert(sides(&puzzle) =~= seq![
        first@.to_set(),
        second@.to_set(),
        third@.to_set(),
        fourth@.to_set(),
    ]);
    puzzle
}

/// The lowest side of the puzzle other than `skip` that holds `c`, or 4.
pub fn find_side(puzzle: &Puzzle, c: char, skip: usize) -> (r: usize)
    ensures
        r == first_side(sides(puzzle), c, skip as int),
        r <= 4,
{
    let mut i: usize = 0;
    while i < 4
        invariant
            i <= 4,
            first_side_from(sides(puzzle), c, skip as int, i as int) == first_side(
                sides(puzzle),
                c,
                skip as int,
            ),
        decreases 4 - i,
    {
        if i != skip && has_letter(&puzzle[i], c) {
            return i;
        }
        i += 1;
    }
    4
}

/// Whether `word` can be spelled on the puzzle: every letter lies on a side,
/// and no letter is taken from the side of the letter before it, the lowest
/// side being taken where several hold the letter.
pub fn validate(word: &str, puzzle: &Puzzle) -> (ok: bool)
    ensures
        ok == valid_word(sides(puzzle), word@),
{
    let n: usize = word.unicode_len();
    if n == 0 {
        return false;
    }
    let mut last_side: usize = 4;
    let mut i: usize = 0;
    while i < n
        invariant
            i <= n,
            n == word@.len(),
            last_side <= 4,
            last_side == side_after(sides(puzzle), word@, i as nat),
            i > 0 ==> last_side < 4,
        decreases n - i,
    {
        let c = word.get_char(i);
        let next: usize = find_side(puzzle, c, last_side);
        if next == 4 {
            proof {
                lemma_stuck_stays(sides(puzzle), word@, (i + 1) as nat, n as nat);
            }
            return false;
        }
        last_side = next;
        i += 1;
    }
    true
}

/// Once a letter could not be placed, no later letter is.
pub proof fn lemma_stuck_stays(sides: Seq<Set<char>>, word: Seq<char>, k: nat, m: nat)
    requires
        1 <= k <= m,
        side_after(sides, word, k) == sides.len(),
    ensures
        side_after(sides, word, m) == sides.len(),
    decreases m - k,
{
    if k < m {
        lemma_stuck_stays(sides, word, k + 1, m);
    }
}

} // verus!
