//! Compact bitmask representation of (5-letter) words.

use crate::letters::{
    is_lower_letter, lemma_anagrams_same_mask, lemma_ones_union_intersection, lemma_ones_zero,
    lemma_ones_le_32, letter_bit, lower_word, ones, word_mask,
};
use vstd::prelude::*;
use vstd::string::StrSliceExecFns;

verus! {

/// Compact bitmask representation of a word's unique letters.
///
/// A `Signature` uses a 26-bit integer where bit `i` indicates whether the
/// letter at position `i` in the alphabet is present. For example, the word
/// "slate" maps to the signature {s,l,a,t,e}, with bits set at positions
/// 0 (a), 4 (e), 11 (l), 18 (s), and 19 (t).
///
/// This representation enables efficient disjointness checking: two
/// signatures are disjoint if and only if their bitwise AND equals zero.
#[derive(Clone, Copy, PartialEq, Eq, Structural, PartialOrd, Ord, Hash, Debug)]
pub struct Signature(pub u32);

impl Signature {
    /// The raw mask value, as seen by specifications.
    pub open spec fn spec_mask(self) -> u32 {
        self.0
    }

    /// Construct a new `Signature` from a word.
    ///
    /// The word must be exactly 5 lowercase ASCII letters (a valid Wordle
    /// answer or guess); callers validate before entry.
    pub fn new(word: &str) -> (sig: Self)
        requires
            word@.len() == 5,
            lower_word(word@),
        ensures
            sig.mask() == word_mask(word@),
            sig.mask() < 0x4000000,
    {
        proof {
            crate::letters::lemma_word_mask_in_alphabet(word@);
        }
        let mut mask: u32 = 0;
        let mut i: usize = 0;
        while i < 5
            invariant
                i <= 5,
                word@.len() == 5,
                lower_word(word@),
                mask == word_mask(word@.take(i as int)),
            decreases 5 - i,
        {
            let c = word.get_char(i);
            proof {
                assert(is_lower_letter(word@[i as int]));
                assert(word@.take(i as int + 1).drop_last() =~= word@.take(i as int));
            }
            mask = mask | (1u32 << (c as u32 - 97));
            i = i + 1;
        }
        proof {
            assert(word@.take(5) =~= word@);
        }
        Self(mask)
    }

    /// Construct a `Signature` from a raw bitmask.
    ///
    /// This allows creating signatures from arbitrary letter combinations.
    pub open spec fn spec_from_mask(mask: u32) -> Self {
        Signature(mask)
    }

    /// Construct a `Signature` from a raw bitmask.
    #[verifier::when_used_as_spec(spec_from_mask)]
    pub fn from_mask(mask: u32) -> (sig: Self)
        ensures
            sig == Self::spec_from_mask(mask),
    {
        Self(mask)
    }

    /// Whether two signatures have no letters in common.
    pub open spec fn spec_disjoint(self, other: Self) -> bool {
        self.0 & other.0 == 0
    }

    /// Checks if two signatures have no letters in common.
    #[verifier::when_used_as_spec(spec_disjoint)]
    pub fn disjoint(self, other: Self) -> (r: bool)
        ensures
            r == self.spec_disjoint(other),
    {
        self.0 & other.0 == 0
    }

    /// The union of two signatures, as seen by specifications.
    pub open spec fn spec_union(self, other: Self) -> Self {
        Signature(self.0 | other.0)
    }

    /// Returns the union of two signatures.
    #[verifier::when_used_as_spec(spec_union)]
    pub fn union(self, other: Self) -> (r: Self)
        ensures
            r == self.spec_union(other),
    {
        Self(self.0 | other.0)
    }

    /// The intersection of two signatures, as seen by specifications.
    pub open spec fn spec_intersection(self, other: Self) -> Self {
        Signature(self.0 & other.0)
    }

    /// Returns the intersection of two signatures.
    #[verifier::when_used_as_spec(spec_intersection)]
    pub fn intersection(self, other: Self) -> (r: Self)
        ensures
            r == self.spec_intersection(other),
    {
        Self(self.0 & other.0)
    }

    /// Returns the number of unique letters set in the signature.
    pub fn count_letters(self) -> (n: u32)
        ensures
            n == ones(self.0),
    {
        proof {
            lemma_ones_le_32(self.0);
        }
        let mut m = self.0;
        let mut n: u32 = 0;
        while m != 0
            invariant
                n + ones(m) == ones(self.0),
                ones(self.0) <= 32,
            decreases m,
        {
            n = n + m % 2;
            m = m / 2;
        }
        n
    }

    /// Returns the underlying mask value.
    #[verifier::when_used_as_spec(spec_mask)]
    pub fn mask(self) -> (m: u32)
        ensures
            m == self.spec_mask(),
    {
        self.0
    }
}

/// Anagrams are interchangeable for the search: two words with the same
/// multiset of characters always construct equal signatures.
pub proof fn lemma_anagram_signatures(
    w1: Seq<char>,
    w2: Seq<char>,
    s1: Signature,
    s2: Signature,
)
    requires
        w1.to_multiset() == w2.to_multiset(),
        s1.mask() == word_mask(w1),
        s2.mask() == word_mask(w2),
    ensures
        s1 == s2,
{
    lemma_anagrams_same_mask(w1, w2);
}

/// Two signatures are disjoint exactly when the union's letter count is the
/// sum of the two individual letter counts.
pub proof fn lemma_disjoint_iff_counts_add(a: Signature, b: Signature)
    ensures
        a.disjoint(b) <==> ones(a.union(b).mask()) == ones(a.mask()) + ones(b.mask()),
{
    lemma_ones_union_intersection(a.mask(), b.mask());
    lemma_ones_zero(a.mask() & b.mask());
}

} // verus!
