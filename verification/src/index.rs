//! The dictionary index: the puzzle-valid words, bucketed by first letter.

use crate::puzzle::{sides, valid_word, validate, Puzzle};
use vstd::prelude::*;
use vstd::string::*;

verus! {

/// The words of the dictionary that can be played, one bucket for each letter
/// from `a` to `z`, each bucket in the order of the dictionary.
pub struct DictionaryIndex<'a> {
    pub buckets: Vec<Vec<&'a str>>,
}

/// The words of a bucket as sequences of letters.
pub open spec fn word_views(words: Seq<&str>) -> Seq<Seq<char>> {
    Seq::new(words.len(), |i: int| words[i]@)
}

/// The place of a letter in the alphabet, counted from `a` as 0.
pub open spec fn letter_slot(c: char) -> int {
    c as int - 97
}

/// The bucket of the words that start with `c`; empty for any `c` that is
/// not a letter from `a` to `z`.
pub open spec fn bucket_of(idx: Seq<Seq<Seq<char>>>, c: char) -> Seq<Seq<char>> {
    if 0 <= letter_slot(c) < idx.len() {
        idx[letter_slot(c)]
    } else {
        Seq::empty()
    }
}

/// An index has 26 buckets, and each word stands in the bucket of its own
/// first letter.
pub open spec fn index_wf(idx: Seq<Seq<Seq<char>>>) -> bool {
    &&& idx.len() == 26
    &&& forall|k: int, j: int|
        0 <= k < 26 && 0 <= j < idx[k].len() ==> (#[trigger] idx[k][j]).len() > 0 && letter_slot(
            idx[k][j][0],
        ) == k
}

/// Whether the index keeps `word`: it has three letters or more and can be
/// spelled on the puzzle.
pub open spec fn keeps(sides: Seq<Set<char>>, word: Seq<char>) -> bool {
    word.len() >= 3 && valid_word(sides, word)
}

/// The bucket in which a word of the dictionary is put: the place of its first
/// letter if the index keeps the word and that letter is one from `a` to `z`,
/// and 26 otherwise.
pub open spec fn slot_of_word(sides: Seq<Set<char>>, word: Seq<char>) -> int {
    if keeps(sides, word) && 0 <= letter_slot(word[0]) < 26 {
        letter_slot(word[0])
    } else {
        26
    }
}

/// The words of the dictionary that are put in bucket `k`, in their order.
pub open spec fn bucket_words(sides: Seq<Set<char>>, words: Seq<Seq<char>>, k: int) -> Seq<
    Seq<char>,
> {
    words.filter(|w: Seq<char>| slot_of_word(sides, w) == k)
}

/// Those of the first `n` words that are put in bucket `k`, in their order.
pub open spec fn selected(sides: Seq<Set<char>>, words: Seq<Seq<char>>, k: int, n: nat) -> Seq<
    Seq<char>,
>
    decreases n,
{
    if n == 0 {
        Seq::empty()
    } else {
        let before = selected(sides, words, k, (n - 1) as nat);
        if slot_of_word(sides, words[n - 1]) == k {
            before.push(words[n - 1])
        } else {
            before
        }
    }
}

impl<'a> View for DictionaryIndex<'a> {
    type V = Seq<Seq<Seq<char>>>;

    open spec fn view(&self) -> Seq<Seq<Seq<char>>> {
        Seq::new(self.buckets@.len(), |k: int| word_views(self.buckets@[k]@))
    }
}

/// The place of `c` in the alphabet, if it is a letter from `a` to `z`.
pub fn slot_of_letter(c: char) -> (r: Option<usize>)
    ensures
        r == (if 0 <= letter_slot(c) < 26 {
            Some(letter_slot(c) as usize)
        } else {
            None
        }),
{
    let code: u32 = c as u32;
    if 97 <= code && code < 123 {
        Some((code - 97) as usize)
    } else {
        None
    }
}

impl<'a> DictionaryIndex<'a> {
    /// Whether the index is well formed.
    pub open spec fn wf(&self) -> bool {
        index_wf(self@)
    }

    /// The index of a dictionary for a puzzle: bucket `k` holds, in the order
    /// of the dictionary, the words of three letters or more that can be
    /// spelled on the puzzle and start with the letter at place `k`.
    pub fn build(words: &Vec<&'a str>, puzzle: &Puzzle) -> (index: DictionaryIndex<'a>)
        ensures
            index.wf(),
            forall|k: int|
                0 <= k < 26 ==> #[trigger] index@[k] == bucket_words(
                    sides(puzzle),
                    word_views(words@),
                    k,
                ),
    {
        let ghost dict = word_views(words@);
        let mut slots: Vec<usize> = Vec::new();
        let mut i: usize = 0;
        while i < words.len()
            invariant
                i <= words.len(),
                slots@.len() == i,
                dict == word_views(words@),
                forall|m: int|
                    0 <= m < i ==> #[trigger] slots@[m] == slot_of_word(sides(puzzle), dict[m]),
            decreases words.len() - i,
        {
            let word: &'a str = words[i];
            let mut slot: usize = 26;
            if word.unicode_len() >= 3 && validate(word, puzzle) {
                match slot_of_letter(word.get_char(0)) {
                    Some(k) => {
                        slot = k;
                    },
                    None => {},
                }
            }
            slots.push(slot);
            i += 1;
        }
        let mut buckets: Vec<Vec<&'a str>> = Vec::new();
        let mut k: usize = 0;
        while k < 26
            invariant
                k <= 26,
                buckets@.len() == k,
                slots@.len() == words@.len(),
                dict == word_views(words@),
                forall|m: int|
                    0 <= m < words@.len() ==> #[trigger] slots@[m] == slot_of_word(
                        sides(puzzle),
                        dict[m],
                    ),
                forall|q: int|
                    0 <= q < k ==> word_views(#[trigger] buckets@[q]@) == selected(
                        sides(puzzle),
                        dict,
                        q,
                        words@.len(),
                    ),
            decreases 26 - k,
        {
            let mut bucket: Vec<&'a str> = Vec::new();
            let mut j: usize = 0;
            assert(word_views(bucket@) =~= selected(sides(puzzle), dict, k as int, 0));
            while j < words.len()
                invariant
                    j <= words.len(),
                    k < 26,
                    slots@.len() == words@.len(),
                    dict == word_views(words@),
                    forall|m: int|
                        0 <= m < words@.len() ==> #[trigger] slots@[m] == slot_of_word(
                            sides(puzzle),
                            dict[m],
                        ),
                    word_views(bucket@) == selected(sides(puzzle), dict, k as int, j as nat),
                decreases words.len() - j,
            {
                if slots[j] == k {
                    let ghost before = bucket@;
                    bucket.push(words[j]);
                    assert(word_views(bucket@) =~= word_views(before).push(dict[j as int]));
                }
                j += 1;
            }
            buckets.push(bucket);
            k += 1;
        }
        let index = DictionaryIndex { buckets };
        proof {
            assert forall|q: int| 0 <= q < 26 implies #[trigger] index@[q] == bucket_words(
                sides(puzzle),
                dict,
                q,
            ) by {
                assert(index@[q] == word_views(index.buckets@[q]@));
                lemma_selected_is_filter(sides(puzzle), dict, q, dict.len());
                assert(dict.take(dict.len() as int) =~= dict);
            }
            assert forall|q: int, j: int| 0 <= q < 26 && 0 <= j < index@[q].len() implies (
            #[trigger] index@[q][j]).len() > 0 && letter_slot(index@[q][j][0]) == q by {
                assert(index@[q] == word_views(index.buckets@[q]@));
                lemma_selected_slot(sides(puzzle), dict, q, words@.len() as nat, j);
            }
        }
        index
    }
}

/// Going through the first `n` words one by one selects what filtering them
/// selects.
pub proof fn lemma_selected_is_filter(sides: Seq<Set<char>>, words: Seq<Seq<char>>, k: int, n: nat)
    requires
        n <= words.len(),
    ensures
        selected(sides, words, k, n) == bucket_words(sides, words.take(n as int), k),
    decreases n,
{
    reveal(Seq::filter);
    if n > 0 {
        lemma_selected_is_filter(sides, words, k, (n - 1) as nat);
        assert(words.take(n as int).drop_last() =~= words.take(n - 1));
        assert(words.take(n as int).last() == words[n - 1]);
    }
}

/// Every word put in bucket `k` has a letter and starts with the letter at
/// place `k`, is kept by the index, and stands in the dictionary.
pub proof fn lemma_selected_slot(
    sides: Seq<Set<char>>,
    words: Seq<Seq<char>>,
    k: int,
    n: nat,
    j: int,
)
    requires
        0 <= k < 26,
        n <= words.len(),
        0 <= j < selected(sides, words, k, n).len(),
    ensures
        selected(sides, words, k, n)[j].len() > 0,
        letter_slot(selected(sides, words, k, n)[j][0]) == k,
        keeps(sides, selected(sides, words, k, n)[j]),
        words.contains(selected(sides, words, k, n)[j]),
    decreases n,
{
    if n > 0 {
        let before = selected(sides, words, k, (n - 1) as nat);
        if j < before.len() {
            lemma_selected_slot(sides, words, k, (n - 1) as nat, j);
        } else {
            assert(selected(sides, words, k, n)[j] == words[n - 1]);
        }
    }
}

} // verus!
