//! The search: the shortest chain of indexed words that uses every letter of
//! the puzzle, within a bound on the number of words.

use crate::index::{bucket_of, index_wf, letter_slot, slot_of_letter, word_views, DictionaryIndex};
use crate::letters::{copy_letters, count_letters, drop_letter, empty_letters, join_letters, set_chars, Letters};
use crate::puzzle::{lemma_take_step, sides, Puzzle};
use vstd::prelude::*;
use vstd::string::*;

verus! {

/// A chain of words, or none, as sequences of letters.
pub open spec fn chain_view(chain: Option<Vec<&str>>) -> Option<Seq<Seq<char>>> {
    match chain {
        Some(words) => Some(word_views(words@)),
        None => None,
    }
}

/// Whether `word` holds every letter of `missing`.
pub open spec fn all_covered(missing: Set<char>, word: Seq<char>) -> bool {
    forall|x: char| missing.contains(x) ==> word.contains(x)
}

/// The letters of `missing` that `word` does not hold.
pub open spec fn uncovered(missing: Set<char>, word: Seq<char>) -> Set<char> {
    Set::new(|x: char| missing.contains(x) && !word.contains(x))
}

/// The shorter of the chain held so far and the next one; the one held stays
/// where the next is as long.
pub open spec fn shorter(prev: Option<Seq<Seq<char>>>, next: Seq<Seq<char>>) -> Option<
    Seq<Seq<char>>,
> {
    match prev {
        None => Some(next),
        Some(held) => Some(
            if next.len() < held.len() {
                next
            } else {
                held
            },
        ),
    }
}

/// The shortest chain that starts with `word`, uses every letter of
/// `missing` and stays within the budget; of several, the first in the order
/// of the buckets.
pub open spec fn extend_spec(
    idx: Seq<Seq<Seq<char>>>,
    word: Seq<char>,
    missing: Set<char>,
    budget: int,
) -> Option<Seq<Seq<char>>>
    decreases budget, 0nat,
{
    if all_covered(missing, word) {
        Some(seq![word])
    } else if budget - 1 <= 0 || word.len() == 0 {
        None
    } else {
        let bucket = bucket_of(idx, word.last());
        match best_from(idx, bucket, uncovered(missing, word), budget - 1, bucket.len()) {
            Some(rest) => Some(seq![word] + rest),
            None => None,
        }
    }
}

/// The shortest of the chains that start with one of the first `n` words of
/// `bucket`; of several, the first.
pub open spec fn best_from(
    idx: Seq<Seq<Seq<char>>>,
    bucket: Seq<Seq<char>>,
    missing: Set<char>,
    budget: int,
    n: nat,
) -> Option<Seq<Seq<char>>>
    decreases budget, n + 1,
{
    if n == 0 {
        None
    } else {
        let prev = best_from(idx, bucket, missing, budget, (n - 1) as nat);
        match extend_spec(idx, bucket[n - 1], missing, budget) {
            Some(chain) => shorter(prev, chain),
            None => prev,
        }
    }
}

/// The shortest of the chains found in the first `k` buckets, each bucket
/// giving its own shortest; of several, the first.
pub open spec fn best_upto(idx: Seq<Seq<Seq<char>>>, missing: Set<char>, budget: int, k: nat) -> Option<
    Seq<Seq<char>>,
>
    decreases k,
{
    if k == 0 {
        None
    } else {
        let prev = best_upto(idx, missing, budget, (k - 1) as nat);
        match best_from(idx, idx[k - 1], missing, budget, idx[k - 1].len()) {
            Some(chain) => shorter(prev, chain),
            None => prev,
        }
    }
}

/// All the letters of a puzzle.
pub open spec fn puzzle_letters(sides: Seq<Set<char>>) -> Set<char> {
    Set::new(|x: char| exists|i: int| 0 <= i < sides.len() && sides[i].contains(x))
}

/// What `solve` returns: the shortest chain over all starting words, the
/// buckets taken from `a` to `z`, with a budget of one less than `max_words`
/// for each starting word. A chain so found has one word, or up to
/// `max_words - 1` words.
pub open spec fn solve_spec(idx: Seq<Seq<Seq<char>>>, letters: Set<char>, max_words: int) -> Option<
    Seq<Seq<char>>,
> {
    best_upto(idx, letters, max_words - 1, idx.len())
}

/// Keeps the chain held so far unless the next one has fewer words.
pub fn shorter_word_string<'a>(prev: Option<Vec<&'a str>>, next: Vec<&'a str>) -> (r: Option<
    Vec<&'a str>,
>)
    ensures
        r == match prev {
            None => Some(next),
            Some(held) => Some(
                if next@.len() < held@.len() {
                    next
                } else {
                    held
                },
            ),
        },
        chain_view(r) == shorter(chain_view(prev), word_views(next@)),
{
    match prev {
        None => Some(next),
        Some(held) => Some(
            if next.len() < held.len() {
                next
            } else {
                held
            },
        ),
    }
}

/// The letters of `missing` that `word` does not hold.
pub fn remove_letters(word: &str, missing: Letters) -> (rest: Letters)
    ensures
        set_chars(rest) == uncovered(set_chars(missing), word@),
{
    let n: usize = word.unicode_len();
    let mut rest = missing;
    let mut i: usize = 0;
    while i < n
        invariant
            i <= n,
            n == word@.len(),
            forall|x: char|
                set_chars(rest).contains(x) <==> (set_chars(missing).contains(x) && !word@.take(
                    i as int,
                ).contains(x)),
        decreases n - i,
    {
        let c = word.get_char(i);
        proof {
            lemma_take_step(word@, i as int);
        }
        drop_letter(&mut rest, c);
        i += 1;
    }
    assert(word@.take(n as int) =~= word@);
    assert(set_chars(rest) =~= uncovered(set_chars(missing), word@));
    rest
}

/// The shortest chain that starts with `word`, uses every letter of
/// `missing` and has no more words than the budget allows: `word` alone
/// where it holds all of `missing`; nothing where it does not and the budget
/// is 1 or less; and else `word` before the shortest chain that starts with a
/// word of the bucket of its last letter, uses the letters still missing and
/// keeps within a budget of one less.
pub fn word_strings_recurse<'a>(
    index: &DictionaryIndex<'a>,
    word: &'a str,
    missing: Letters,
    remaining_words: i8,
) -> (r: Option<Vec<&'a str>>)
    requires
        index.wf(),
        word@.len() > 0,
    ensures
        chain_view(r) == extend_spec(index@, word@, set_chars(missing), remaining_words as int),
    decreases remaining_words, 0nat,
{
    let ghost before = set_chars(missing);
    let rest = remove_letters(word, missing);
    if count_letters(&rest) == 0 {
        let mut chain: Vec<&'a str> = Vec::new();
        chain.push(word);
        proof {
            assert forall|x: char| before.contains(x) implies word@.contains(x) by {
                assert(!set_chars(rest).contains(x));
            }
            assert(word_views(chain@) =~= seq![word@]);
        }
        return Some(chain);
    }
    proof {
        if all_covered(before, word@) {
            assert(set_chars(rest) =~= Set::<char>::empty());
        }
    }
    if remaining_words <= 1 {
        return None;
    }
    let last = word.get_char(word.unicode_len() - 1);
    match slot_of_letter(last) {
        None => None,
        Some(k) => {
            match best_in_bucket(index, k, &rest, remaining_words - 1) {
                None => None,
                Some(found) => {
                    let mut chain = found;
                    chain.insert(0, word);
                    proof {
                        assert(word_views(chain@) =~= seq![word@] + word_views(found@));
                    }
                    Some(chain)
                },
            }
        },
    }
}

/// The shortest of the chains that start with a word of bucket `k`; of
/// several, the first.
pub fn best_in_bucket<'a>(index: &DictionaryIndex<'a>, k: usize, missing: &Letters, budget: i8) -> (r:
    Option<Vec<&'a str>>)
    requires
        index.wf(),
        k < 26,
    ensures
        chain_view(r) == best_from(
            index@,
            index@[k as int],
            set_chars(*missing),
            budget as int,
            index@[k as int].len(),
        ),
    decreases budget, 1nat,
{
    let mut best: Option<Vec<&'a str>> = None;
    let mut j: usize = 0;
    let count: usize = index.buckets[k].len();
    while j < count
        invariant
            j <= count,
            k < 26,
            index.wf(),
            count == index@[k as int].len(),
            count == index.buckets@[k as int]@.len(),
            chain_view(best) == best_from(
                index@,
                index@[k as int],
                set_chars(*missing),
                budget as int,
                j as nat,
            ),
        decreases count - j,
    {
        let word: &'a str = index.buckets[k][j];
        assert(word@ == index@[k as int][j as int]);
        let found = word_strings_recurse(index, word, copy_letters(missing), budget);
        match found {
            Some(chain) => {
                best = shorter_word_string(best, chain);
            },
            None => {},
        }
        j += 1;
    }
    best
}

/// All the letters of the puzzle, as one set.
pub fn all_letters(puzzle: &Puzzle) -> (all: Letters)
    ensures
        set_chars(all) == puzzle_letters(sides(puzzle)),
{
    let mut all = empty_letters();
    let mut i: usize = 0;
    while i < 4
        invariant
            i <= 4,
            forall|x: char|
                set_chars(all).contains(x) <==> exists|m: int|
                    0 <= m < i && (#[trigger] sides(puzzle)[m]).contains(x),
        decreases 4 - i,
    {
        let ghost held = set_chars(all);
        all = join_letters(&all, &puzzle[i]);
        proof {
            assert forall|x: char| set_chars(all).contains(x) <==> exists|m: int|
                0 <= m < i + 1 && (#[trigger] sides(puzzle)[m]).contains(x) by {
                if sides(puzzle)[i as int].contains(x) {
                }
                if held.contains(x) {
                    let m = choose|m: int| 0 <= m < i && (#[trigger] sides(puzzle)[m]).contains(x);
                    assert(sides(puzzle)[m].contains(x));
                }
            }
        }
        i += 1;
    }
    assert(set_chars(all) =~= puzzle_letters(sides(puzzle)));
    all
}

/// The shortest chain of indexed words that uses every letter of the puzzle:
/// every word of every bucket is tried as the first word, the buckets from
/// `a` to `z` and each bucket in its order, and of the chains found the first
/// of the shortest is returned; `None` where no chain is found. Each starting
/// word gets a budget of `max_words - 1`, so a chain has one word, or up to
/// `max_words - 1` words.
pub fn solve<'a>(index: &DictionaryIndex<'a>, puzzle: &Puzzle, max_words: i8) -> (r: Option<
    Vec<&'a str>,
>)
    requires
        index.wf(),
        max_words > i8::MIN,
    ensures
        chain_view(r) == solve_spec(index@, puzzle_letters(sides(puzzle)), max_words as int),
{
    let all = all_letters(puzzle);
    let mut best: Option<Vec<&'a str>> = None;
    let mut k: usize = 0;
    while k < 26
        invariant
            k <= 26,
            index.wf(),
            max_words > i8::MIN,
            set_chars(all) == puzzle_letters(sides(puzzle)),
            chain_view(best) == best_upto(index@, set_chars(all), max_words - 1, k as nat),
        decreases 26 - k,
    {
        match best_in_bucket(index, k, &all, max_words - 1) {
            Some(chain) => {
                best = shorter_word_string(best, chain);
            },
            None => {},
        }
        k += 1;
    }
    best
}

} // verus!
