//! A set of letters as a raw bitmask.

use crate::letters::{
    is_lower_letter, lemma_ones_le_32, letter_bit, lower_word, ones, word_mask,
};
use vstd::prelude::*;
use vstd::string::StrSliceExecFns;

verus! {

/// Represents a set of letters.
///
/// A `LetterSet` is a mask, where setting a bit at position `i` indicates
/// that the letter `i` is present in the word.
#[derive(Clone, Copy, PartialEq, Eq, Structural, PartialOrd, Ord, Hash, Debug)]
pub struct LetterSet(pub u32);

impl LetterSet {
    /// The raw mask value, as seen by specifications.
    pub open spec fn spec_mask(self) -> u32 {
        self.0
    }

    /// Construct a new `LetterSet` holding the letters of `word`.
    ///
    /// The word must consist of lowercase ASCII letters; callers validate
    /// before entry.
    pub fn new(word: &str) -> (ls: Self)
        requires
            lower_word(word@),
        ensures
            ls.mask() == word_mask(word@),
            ls.mask() < 0x4000000,
    {
        proof {
            crate::letters::lemma_word_mask_in_alphabet(word@);
        }
        let n = word.unicode_len();
        let mut mask: u32 = 0;
        let mut i: usize = 0;
        while i < n
            invariant
                i <= n,
                word@.len() == n,
                lower_word(word@),
                mask == word_mask(word@.take(i as int)),
            decreases n - i,
        {
            let c = word.get_char(i);
            proof {
                assert(is_lower_letter(word@[i as int]));
                assert(word@.take(i as int + 1).drop_last() =~= word@.take(i as int));
            }
            mask = mask | (1u32 << (c as u32 - 97));
            i = i + 1;
        }
        proof {
            assert(word@.take(n as int) =~= word@);
        }
        Self(mask)
    }

    /// Construct a `LetterSet` from the underlying letter mask.
    pub open spec fn spec_from_mask(mask: u32) -> Self {
        LetterSet(mask)
    }

    /// Construct a `LetterSet` from the underlying letter mask.
    #[verifier::when_used_as_spec(spec_from_mask)]
    pub fn from_mask(mask: u32) -> (ls: Self)
        ensures
            ls == Self::spec_from_mask(mask),
    {
        Self(mask)
    }

    /// Whether two lettersets have no letters in common.
    pub open spec fn spec_disjoint(self, other: Self) -> bool {
        self.0 & other.0 == 0
    }

    /// Checks if two lettersets have no letters in common.
    #[verifier::when_used_as_spec(spec_disjoint)]
    pub fn disjoint(self, other: Self) -> (r: bool)
        ensures
            r == self.spec_disjoint(other),
    {
        self.0 & other.0 == 0
    }

    /// The union of two lettersets, as seen by specifications.
    pub open spec fn spec_union(self, other: Self) -> Self {
        LetterSet(self.0 | other.0)
    }

    /// Returns the union of two lettersets.
    #[verifier::when_used_as_spec(spec_union)]
    pub fn union(self, other: Self) -> (r: Self)
        ensures
            r == self.spec_union(other),
    {
        Self(self.0 | other.0)
    }

    /// The intersection of two lettersets, as seen by specifications.
    pub open spec fn spec_intersection(self, other: Self) -> Self {
        LetterSet(self.0 & other.0)
    }

    /// Returns the intersection of two lettersets.
    #[verifier::when_used_as_spec(spec_intersection)]
    pub fn intersection(self, other: Self) -> (r: Self)
        ensures
            r == self.spec_intersection(other),
    {
        Self(self.0 & other.0)
    }

    /// Returns the number of unique letters set in the letterset.
    pub fn count_letters(self) -> (n: u32)
        ensures
            n == ones(self.0),
    {
        proof {
            lemma_ones_le_32(self.0);
        }
        let mut m = self.0;
        let mut n: u32 = 0;
        while m != 0
            invariant
                n + ones(m) == ones(self.0),
                ones(self.0) <= 32,
            decreases m,
        {
            n = n + m % 2;
            m = m / 2;
        }
        n
    }

    /// Returns the underlying mask value.
    #[verifier::when_used_as_spec(spec_mask)]
    pub fn mask(self) -> (m: u32)
        ensures
            m == self.spec_mask(),
    {
        self.0
    }
}

} // verus!
