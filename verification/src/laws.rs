//! What holds of the validity of words and of the search, for all inputs.

use crate::index::{
    bucket_of, bucket_words, index_wf, keeps, lemma_selected_is_filter, lemma_selected_slot,
    letter_slot, slot_of_word,
};
use crate::puzzle::{
    first_side, first_side_from, lemma_stuck_stays, lowercase, side_after, valid_word,
};
use crate::search::{all_covered, best_from, best_upto, extend_spec, solve_spec, uncovered};
use vstd::prelude::*;

verus! {

/// A word of the index: it has a letter and stands in the bucket of its first
/// letter.
pub open spec fn in_index(idx: Seq<Seq<Seq<char>>>, word: Seq<char>) -> bool {
    word.len() > 0 && bucket_of(idx, word[0]).contains(word)
}

/// Each word after the first starts with the last letter of the word before.
pub open spec fn linked(chain: Seq<Seq<char>>) -> bool {
    forall|i: int|
        1 <= i < chain.len() ==> (#[trigger] chain[i]).len() > 0 && chain[i - 1].len() > 0
            && chain[i][0] == chain[i - 1].last()
}

/// A chain: one word of the index or more, each linked to the one before.
pub open spec fn is_chain(idx: Seq<Seq<Seq<char>>>, chain: Seq<Seq<char>>) -> bool {
    &&& chain.len() > 0
    &&& forall|i: int| 0 <= i < chain.len() ==> in_index(idx, #[trigger] chain[i])
    &&& linked(chain)
}

/// Every one of the letters occurs in some word of the chain.
pub open spec fn covers(chain: Seq<Seq<char>>, letters: Set<char>) -> bool {
    forall|x: char|
        letters.contains(x) ==> exists|i: int|
            0 <= i < chain.len() && (#[trigger] chain[i]).contains(x)
}

/// The number of words that a chain may have under a budget: as many as the
/// budget, and one in any case.
pub open spec fn max_len(budget: int) -> int {
    if budget <= 1 {
        1
    } else {
        budget
    }
}

/// Some word of the index holds all the letters by itself.
pub open spec fn some_word_covers(idx: Seq<Seq<Seq<char>>>, letters: Set<char>) -> bool {
    exists|k: int, j: int|
        0 <= k < idx.len() && 0 <= j < idx[k].len() && all_covered(letters, #[trigger] idx[k][j])
}

/// The side that `first_side_from` gives lies at or after `from`, is not the
/// side left out and holds the letter; where it gives none, no side at or
/// after `from` but the one left out holds the letter.
pub proof fn lemma_first_side(sides: Seq<Set<char>>, c: char, skip: int, from: int)
    requires
        0 <= from <= sides.len(),
    ensures
        from <= first_side_from(sides, c, skip, from) <= sides.len(),
        first_side_from(sides, c, skip, from) < sides.len() ==> first_side_from(
            sides,
            c,
            skip,
            from,
        ) != skip && sides[first_side_from(sides, c, skip, from)].contains(c),
        first_side_from(sides, c, skip, from) == sides.len() <==> (forall|s: int|
            from <= s < sides.len() && s != skip ==> !(#[trigger] sides[s]).contains(c)),
    decreases sides.len() - from,
{
    if from < sides.len() {
        lemma_first_side(sides, c, skip, from + 1);
        if !(from != skip && sides[from].contains(c)) {
            let r = first_side_from(sides, c, skip, from + 1);
            if r == sides.len() {
                assert forall|s: int| from <= s < sides.len() && s != skip implies !(
                #[trigger] sides[s]).contains(c) by {
                    if s > from {
                    }
                }
            }
        }
    }
}

/// A word with a letter that lies on no side of the puzzle is not valid.
pub proof fn law_foreign_letter_invalid(sides: Seq<Set<char>>, word: Seq<char>, i: int)
    requires
        0 <= i < word.len(),
        forall|s: int| 0 <= s < sides.len() ==> !(#[trigger] sides[s]).contains(word[i]),
    ensures
        !valid_word(sides, word),
{
    let prev = side_after(sides, word, i as nat);
    lemma_first_side(sides, word[i], prev, 0);
    assert(side_after(sides, word, (i + 1) as nat) == sides.len());
    lemma_stuck_stays(sides, word, (i + 1) as nat, word.len());
}

/// A word is not valid where one of its letters lies on no side but the one
/// that the walk gave to the letter before it: the two would come from the
/// same side.
pub proof fn law_same_side_invalid(sides: Seq<Set<char>>, word: Seq<char>, i: int)
    requires
        1 <= i < word.len(),
        forall|s: int|
            0 <= s < sides.len() && s != side_after(sides, word, i as nat) ==> !(
            #[trigger] sides[s]).contains(word[i]),
    ensures
        !valid_word(sides, word),
{
    let prev = side_after(sides, word, i as nat);
    lemma_first_side(sides, word[i], prev, 0);
    assert(side_after(sides, word, (i + 1) as nat) == sides.len());
    lemma_stuck_stays(sides, word, (i + 1) as nat, word.len());
}

/// In a valid word the walk places every letter on a side that holds it, and
/// no letter on the side of the letter before it.
pub proof fn law_valid_word_placed(sides: Seq<Set<char>>, word: Seq<char>, k: nat)
    requires
        valid_word(sides, word),
        1 <= k <= word.len(),
    ensures
        0 <= side_after(sides, word, k) < sides.len(),
        sides[side_after(sides, word, k)].contains(word[k - 1]),
        side_after(sides, word, k) != side_after(sides, word, (k - 1) as nat),
{
    if side_after(sides, word, k) == sides.len() {
        lemma_stuck_stays(sides, word, k, word.len());
    }
    let prev = side_after(sides, word, (k - 1) as nat);
    lemma_first_side(sides, word[k - 1], prev, 0);
}

/// On a puzzle whose sides hold lowercase letters only, every letter of a
/// valid word is a lowercase letter, so the word has a bucket for its first
/// letter and one for its last.
pub proof fn law_valid_word_lowercase(sides: Seq<Set<char>>, word: Seq<char>, i: int)
    requires
        forall|s: int, c: char|
            0 <= s < sides.len() && #[trigger] sides[s].contains(c) ==> lowercase(c),
        valid_word(sides, word),
        0 <= i < word.len(),
    ensures
        lowercase(word[i]),
        0 <= letter_slot(word[i]) < 26,
{
    law_valid_word_placed(sides, word, (i + 1) as nat);
}

/// Every word of a bucket of the index stands in the dictionary, has three
/// letters or more, can be spelled on the puzzle and starts with the letter of
/// the bucket.
pub proof fn law_indexed_words_kept(
    sides: Seq<Set<char>>,
    words: Seq<Seq<char>>,
    k: int,
    j: int,
)
    requires
        0 <= k < 26,
        0 <= j < bucket_words(sides, words, k).len(),
    ensures
        words.contains(bucket_words(sides, words, k)[j]),
        keeps(sides, bucket_words(sides, words, k)[j]),
        letter_slot(bucket_words(sides, words, k)[j][0]) == k,
{
    lemma_selected_is_filter(sides, words, k, words.len());
    assert(words.take(words.len() as int) =~= words);
    lemma_selected_slot(sides, words, k, words.len(), j);
}

/// Every word of the dictionary that has three letters or more, can be
/// spelled on the puzzle and starts with a letter from `a` to `z` stands in
/// the bucket of that letter.
pub proof fn law_kept_words_indexed(sides: Seq<Set<char>>, words: Seq<Seq<char>>, m: int)
    requires
        0 <= m < words.len(),
        keeps(sides, words[m]),
        0 <= letter_slot(words[m][0]) < 26,
    ensures
        bucket_words(sides, words, letter_slot(words[m][0])).contains(words[m]),
{
    let k = letter_slot(words[m][0]);
    words.lemma_filter_contains(|w: Seq<char>| slot_of_word(sides, w) == k, m);
}

/// The best of a bucket is the chain found from one of its words.
pub proof fn lemma_best_from_is_found(
    idx: Seq<Seq<Seq<char>>>,
    bucket: Seq<Seq<char>>,
    missing: Set<char>,
    budget: int,
    n: nat,
) -> (j: int)
    requires
        best_from(idx, bucket, missing, budget, n) is Some,
    ensures
        0 <= j < n,
        extend_spec(idx, bucket[j], missing, budget) == best_from(idx, bucket, missing, budget, n),
    decreases n,
{
    let prev = best_from(idx, bucket, missing, budget, (n - 1) as nat);
    let here = extend_spec(idx, bucket[n - 1], missing, budget);
    if best_from(idx, bucket, missing, budget, n) == here {
        n - 1
    } else {
        lemma_best_from_is_found(idx, bucket, missing, budget, (n - 1) as nat)
    }
}

/// The best of a bucket is no longer than the chain found from any of its
/// words.
pub proof fn lemma_best_from_no_longer(
    idx: Seq<Seq<Seq<char>>>,
    bucket: Seq<Seq<char>>,
    missing: Set<char>,
    budget: int,
    n: nat,
    j: int,
)
    requires
        0 <= j < n,
        extend_spec(idx, bucket[j], missing, budget) is Some,
    ensures
        best_from(idx, bucket, missing, budget, n) is Some,
        best_from(idx, bucket, missing, budget, n)->0.len() <= extend_spec(
            idx,
            bucket[j],
            missing,
            budget,
        )->0.len(),
    decreases n,
{
    if j < n - 1 {
        lemma_best_from_no_longer(idx, bucket, missing, budget, (n - 1) as nat, j);
    }
}

/// The best of the first buckets is the best of one of them.
pub proof fn lemma_best_upto_is_found(
    idx: Seq<Seq<Seq<char>>>,
    missing: Set<char>,
    budget: int,
    k: nat,
) -> (q: int)
    requires
        best_upto(idx, missing, budget, k) is Some,
    ensures
        0 <= q < k,
        best_from(idx, idx[q], missing, budget, idx[q].len()) == best_upto(idx, missing, budget, k),
    decreases k,
{
    let here = best_from(idx, idx[k - 1], missing, budget, idx[k - 1].len());
    if best_upto(idx, missing, budget, k) == here {
        k - 1
    } else {
        lemma_best_upto_is_found(idx, missing, budget, (k - 1) as nat)
    }
}

/// The best of the first buckets is no longer than the best of any of them.
pub proof fn lemma_best_upto_no_longer(
    idx: Seq<Seq<Seq<char>>>,
    missing: Set<char>,
    budget: int,
    k: nat,
    q: int,
)
    requires
        0 <= q < k,
        best_from(idx, idx[q], missing, budget, idx[q].len()) is Some,
    ensures
        best_upto(idx, missing, budget, k) is Some,
        best_upto(idx, missing, budget, k)->0.len() <= best_from(
            idx,
            idx[q],
            missing,
            budget,
            idx[q].len(),
        )->0.len(),
    decreases k,
{
    if q < k - 1 {
        lemma_best_upto_no_longer(idx, missing, budget, (k - 1) as nat, q);
    }
}

/// What is found from a word starts with that word, goes on with linked
/// words of the index, holds every missing letter and keeps within the
/// budget.
pub proof fn lemma_extend_sound(
    idx: Seq<Seq<Seq<char>>>,
    word: Seq<char>,
    missing: Set<char>,
    budget: int,
)
    requires
        index_wf(idx),
        word.len() > 0,
        extend_spec(idx, word, missing, budget) is Some,
    ensures
        ({
            let found = extend_spec(idx, word, missing, budget)->0;
            &&& 1 <= found.len() <= max_len(budget)
            &&& found[0] == word
            &&& forall|i: int| 1 <= i < found.len() ==> in_index(idx, #[trigger] found[i])
            &&& linked(found)
            &&& covers(found, missing)
        }),
    decreases budget,
{
    let found = extend_spec(idx, word, missing, budget)->0;
    if all_covered(missing, word) {
        assert(found =~= seq![word]);
        assert forall|x: char| missing.contains(x) implies exists|i: int|
            0 <= i < found.len() && (#[trigger] found[i]).contains(x) by {
            assert(found[0].contains(x));
        }
    } else {
        let bucket = bucket_of(idx, word.last());
        let rest_missing = uncovered(missing, word);
        let j = lemma_best_from_is_found(idx, bucket, rest_missing, budget - 1, bucket.len());
        let next = bucket[j];
        let slot = letter_slot(word.last());
        assert(bucket == idx[slot]);
        assert(idx[slot][j].len() > 0 && letter_slot(idx[slot][j][0]) == slot);
        assert(next[0] == word.last());
        lemma_extend_sound(idx, next, rest_missing, budget - 1);
        let rest = extend_spec(idx, next, rest_missing, budget - 1)->0;
        assert(found =~= seq![word] + rest);
        assert(bucket_of(idx, next[0]) == bucket);
        assert(in_index(idx, next));
        assert forall|i: int| 1 <= i < found.len() implies in_index(idx, #[trigger] found[i]) by {
            assert(found[i] == rest[i - 1]);
        }
        assert forall|i: int| 1 <= i < found.len() implies (#[trigger] found[i]).len() > 0
            && found[i - 1].len() > 0 && found[i][0] == found[i - 1].last() by {
            assert(found[i] == rest[i - 1]);
            if i >= 2 {
                assert(found[i - 1] == rest[i - 2]);
            }
        }
        assert forall|x: char| missing.contains(x) implies exists|i: int|
            0 <= i < found.len() && (#[trigger] found[i]).contains(x) by {
            if word.contains(x) {
                assert(found[0].contains(x));
            } else {
                assert(rest_missing.contains(x));
                let i = choose|i: int| 0 <= i < rest.len() && (#[trigger] rest[i]).contains(x);
                assert(found[i + 1] == rest[i]);
                assert(found[i + 1].contains(x));
            }
        }
    }
}

/// Where linked words of the index hold every missing letter and are no more
/// than the budget allows, a chain is found from the first of them, and it is
/// no longer than they are.
pub proof fn lemma_extend_complete(
    idx: Seq<Seq<Seq<char>>>,
    chain: Seq<Seq<char>>,
    missing: Set<char>,
    budget: int,
)
    requires
        index_wf(idx),
        1 <= chain.len() <= max_len(budget),
        chain[0].len() > 0,
        forall|i: int| 1 <= i < chain.len() ==> in_index(idx, #[trigger] chain[i]),
        linked(chain),
        covers(chain, missing),
    ensures
        extend_spec(idx, chain[0], missing, budget) is Some,
        extend_spec(idx, chain[0], missing, budget)->0.len() <= chain.len(),
    decreases chain.len(),
{
    let word = chain[0];
    if !all_covered(missing, word) {
        if chain.len() == 1 {
            assert forall|x: char| missing.contains(x) implies word.contains(x) by {
                let i = choose|i: int| 0 <= i < chain.len() && (#[trigger] chain[i]).contains(x);
                assert(i == 0);
            }
        }
        let next = chain[1];
        let rest = chain.drop_first();
        let rest_missing = uncovered(missing, word);
        let bucket = bucket_of(idx, word.last());
        assert(in_index(idx, next));
        assert(next[0] == word.last());
        assert(bucket.contains(next));
        let j = bucket.index_of(next);
        assert(rest[0] == next);
        assert forall|i: int| 1 <= i < rest.len() implies in_index(idx, #[trigger] rest[i]) by {
            assert(rest[i] == chain[i + 1]);
        }
        assert forall|i: int| 1 <= i < rest.len() implies (#[trigger] rest[i]).len() > 0 && rest[i
            - 1].len() > 0 && rest[i][0] == rest[i - 1].last() by {
            assert(rest[i] == chain[i + 1]);
            assert(rest[i - 1] == chain[i]);
        }
        assert forall|x: char| rest_missing.contains(x) implies exists|i: int|
            0 <= i < rest.len() && (#[trigger] rest[i]).contains(x) by {
            let i = choose|i: int| 0 <= i < chain.len() && (#[trigger] chain[i]).contains(x);
            assert(i != 0);
            assert(rest[i - 1] == chain[i]);
            assert(rest[i - 1].contains(x));
        }
        lemma_extend_complete(idx, rest, rest_missing, budget - 1);
        lemma_best_from_no_longer(idx, bucket, rest_missing, budget - 1, bucket.len(), j);
    }
}

/// Soundness of the search: what `solve` returns is a chain of words of the
/// index, each word after the first starting with the last letter of the word
/// before it, that holds every letter of the puzzle and has no more words than
/// the budget allows.
pub proof fn law_solve_sound(idx: Seq<Seq<Seq<char>>>, letters: Set<char>, max_words: int)
    requires
        index_wf(idx),
        solve_spec(idx, letters, max_words) is Some,
    ensures
        is_chain(idx, solve_spec(idx, letters, max_words)->0),
        covers(solve_spec(idx, letters, max_words)->0, letters),
        solve_spec(idx, letters, max_words)->0.len() <= max_len(max_words - 1),
{
    let budget = max_words - 1;
    let q = lemma_best_upto_is_found(idx, letters, budget, idx.len());
    let j = lemma_best_from_is_found(idx, idx[q], letters, budget, idx[q].len());
    let word = idx[q][j];
    assert(word.len() > 0 && letter_slot(word[0]) == q);
    lemma_extend_sound(idx, word, letters, budget);
    let found = solve_spec(idx, letters, max_words)->0;
    assert(bucket_of(idx, word[0]) == idx[q]);
    assert(in_index(idx, found[0]));
    assert forall|i: int| 0 <= i < found.len() implies in_index(idx, #[trigger] found[i]) by {
        if i > 0 {
        }
    }
}

/// Completeness and minimality of the search: where any chain holds every
/// letter of the puzzle with no more words than the budget allows, `solve`
/// returns a chain, and one that is no longer.
pub proof fn law_solve_finds(
    idx: Seq<Seq<Seq<char>>>,
    letters: Set<char>,
    max_words: int,
    chain: Seq<Seq<char>>,
)
    requires
        index_wf(idx),
        is_chain(idx, chain),
        covers(chain, letters),
        chain.len() <= max_len(max_words - 1),
    ensures
        solve_spec(idx, letters, max_words) is Some,
        solve_spec(idx, letters, max_words)->0.len() <= chain.len(),
{
    let budget = max_words - 1;
    let first = chain[0];
    assert(in_index(idx, first));
    let q = letter_slot(first[0]);
    let j = bucket_of(idx, first[0]).index_of(first);
    assert forall|i: int| 1 <= i < chain.len() implies in_index(idx, #[trigger] chain[i]) by {}
    lemma_extend_complete(idx, chain, letters, budget);
    lemma_best_from_no_longer(idx, idx[q], letters, budget, idx[q].len(), j);
    lemma_best_upto_no_longer(idx, letters, budget, idx.len(), q);
}

/// Minimality: no chain that holds every letter of the puzzle has fewer
/// words than the chain that `solve` returns.
pub proof fn law_solve_minimal(
    idx: Seq<Seq<Seq<char>>>,
    letters: Set<char>,
    max_words: int,
    chain: Seq<Seq<char>>,
)
    requires
        index_wf(idx),
        solve_spec(idx, letters, max_words) is Some,
        is_chain(idx, chain),
        covers(chain, letters),
    ensures
        solve_spec(idx, letters, max_words)->0.len() <= chain.len(),
{
    if chain.len() <= max_len(max_words - 1) {
        law_solve_finds(idx, letters, max_words, chain);
    } else {
        law_solve_sound(idx, letters, max_words);
    }
}

/// With `max_words` 1, `solve` returns a chain exactly when some word of the
/// index holds every letter of the puzzle by itself, and the chain is then
/// one word.
pub proof fn law_single_word(idx: Seq<Seq<Seq<char>>>, letters: Set<char>)
    requires
        index_wf(idx),
    ensures
        solve_spec(idx, letters, 1) is Some <==> some_word_covers(idx, letters),
        solve_spec(idx, letters, 1) is Some ==> solve_spec(idx, letters, 1)->0.len() == 1
            && all_covered(letters, solve_spec(idx, letters, 1)->0[0]),
{
    if solve_spec(idx, letters, 1) is Some {
        law_solve_sound(idx, letters, 1);
        let found = solve_spec(idx, letters, 1)->0;
        let word = found[0];
        assert forall|x: char| letters.contains(x) implies word.contains(x) by {
            let i = choose|i: int| 0 <= i < found.len() && (#[trigger] found[i]).contains(x);
            assert(i == 0);
        }
        assert(in_index(idx, word));
        let q = letter_slot(word[0]);
        let j = bucket_of(idx, word[0]).index_of(word);
        assert(all_covered(letters, idx[q][j]));
    }
    if some_word_covers(idx, letters) {
        let (q, j) = choose|q: int, j: int|
            0 <= q < idx.len() && 0 <= j < idx[q].len() && all_covered(
                letters,
                #[trigger] idx[q][j],
            );
        let word = idx[q][j];
        let chain = seq![word];
        assert(word.len() > 0 && letter_slot(word[0]) == q);
        assert(bucket_of(idx, word[0]) == idx[q]);
        assert(in_index(idx, chain[0]));
        assert forall|x: char| letters.contains(x) implies exists|i: int|
            0 <= i < chain.len() && (#[trigger] chain[i]).contains(x) by {
            assert(chain[0].contains(x));
        }
        law_solve_finds(idx, letters, 1, chain);
    }
}

/// With no word in any bucket none of the first `k` buckets gives a chain.
pub proof fn lemma_empty_upto(idx: Seq<Seq<Seq<char>>>, letters: Set<char>, budget: int, k: nat)
    requires
        k <= idx.len(),
        forall|q: int| 0 <= q < idx.len() ==> (#[trigger] idx[q]).len() == 0,
    ensures
        best_upto(idx, letters, budget, k) is None,
    decreases k,
{
    if k > 0 {
        lemma_empty_upto(idx, letters, budget, (k - 1) as nat);
        assert(idx[k - 1].len() == 0);
    }
}

/// With an index that holds no word, `solve` returns no chain, whatever the
/// puzzle and the bound on the number of words.
pub proof fn law_empty_index_no_chain(idx: Seq<Seq<Seq<char>>>, letters: Set<char>, max_words: int)
    requires
        forall|q: int| 0 <= q < idx.len() ==> (#[trigger] idx[q]).len() == 0,
    ensures
        solve_spec(idx, letters, max_words) is None,
{
    lemma_empty_upto(idx, letters, max_words - 1, idx.len());
}

/// What `solve` returns is a function of the index, the letters of the puzzle
/// and the bound alone: two runs on the same inputs return the same words in
/// the same order.
pub proof fn law_solve_deterministic(
    idx: Seq<Seq<Seq<char>>>,
    letters: Set<char>,
    max_words: int,
    first_run: Option<Seq<Seq<char>>>,
    second_run: Option<Seq<Seq<char>>>,
)
    requires
        first_run == solve_spec(idx, letters, max_words),
        second_run == solve_spec(idx, letters, max_words),
    ensures
        first_run == second_run,
{
}

} // verus!
