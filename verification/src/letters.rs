//! Letter sets. The sets themselves are `tinyset::Set64<char>`; this module
//! states what each set operation used by the solver does to a set's contents.

use tinyset::Set64;
use vstd::prelude::*;

verus! {

/// A set of letters, kept in a `tinyset::Set64<char>`.
#[verifier::external_body]
pub struct Letters {
    set: Set64<char>,
}

/// The letters that a set holds.
pub uninterp spec fn set_chars(s: Letters) -> Set<char>;

/// `Set64::new`: the new set holds nothing.
#[verifier::external_body]
pub(crate) fn empty_letters() -> (s: Letters)
    ensures
        set_chars(s) == Set::<char>::empty(),
{
    Letters { set: Set64::new() }
}

/// `Set64::insert`: afterwards the set holds what it held and `c`; the result
/// tells whether `c` was new to it.
#[verifier::external_body]
pub(crate) fn add_letter(s: &mut Letters, c: char) -> (fresh: bool)
    ensures
        set_chars(*final(s)) == set_chars(*old(s)).insert(c),
        fresh == !set_chars(*old(s)).contains(c),
{
    s.set.insert(c)
}

/// `Set64::remove`: afterwards the set holds what it held but `c`; the result
/// tells whether `c` was in it.
#[verifier::external_body]
pub(crate) fn drop_letter(s: &mut Letters, c: char) -> (present: bool)
    ensures
        set_chars(*final(s)) == set_chars(*old(s)).remove(c),
        present == set_chars(*old(s)).contains(c),
{
    s.set.remove(&c)
}

/// `Set64::contains`: whether the set holds `c`.
#[verifier::external_body]
pub(crate) fn has_letter(s: &Letters, c: char) -> (b: bool)
    ensures
        b == set_chars(*s).contains(c),
{
    s.set.contains(c)
}

/// `Set64::len`: the number of letters held; it is 0 exactly when the set
/// holds nothing.
#[verifier::external_body]
pub(crate) fn count_letters(s: &Letters) -> (count: usize)
    ensures
        count == set_chars(*s).len(),
        (count == 0) == (set_chars(*s) == Set::<char>::empty()),
{
    s.set.len()
}

/// `Set64::clone`: the copy holds the same letters.
#[verifier::external_body]
pub(crate) fn copy_letters(s: &Letters) -> (r: Letters)
    ensures
        set_chars(r) == set_chars(*s),
{
    Letters { set: s.set.clone() }
}

/// `&a | &b` on `Set64`: the result holds the letters of both.
#[verifier::external_body]
pub(crate) fn join_letters(a: &Letters, b: &Letters) -> (r: Letters)
    ensures
        set_chars(r) == set_chars(*a).union(set_chars(*b)),
{
    Letters { set: &a.set | &b.set }
}

} // verus!
