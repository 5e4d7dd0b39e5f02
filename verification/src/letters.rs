//! The letter-to-bitmask model: how a word over the lowercase alphabet maps to
//! a 26-bit mask, and how set bits are counted.
//!
//! Everything downstream (signatures, packings, realizations) is specified in
//! terms of [`word_mask`] and [`ones`].

use vstd::arithmetic::power2::{lemma2_to64, pow2};
use vstd::prelude::*;

verus! {

/// True iff `c` is a lowercase ASCII letter.
pub open spec fn is_lower_letter(c: char) -> bool {
    97 <= c as u32 && c as u32 <= 122
}

/// True iff every character of `s` is a lowercase ASCII letter.
pub open spec fn lower_word(s: Seq<char>) -> bool {
    forall|i: int| 0 <= i < s.len() ==> is_lower_letter(s[i])
}

/// The alphabet bit of one letter: bit 0 for 'a' through bit 25 for 'z'.
/// A character outside the lowercase alphabet contributes no bit.
pub open spec fn letter_bit(c: char) -> u32 {
    if is_lower_letter(c) {
        1u32 << ((c as u32 - 97) as u32)
    } else {
        0u32
    }
}

/// The bitmask of all letters occurring in the word `s`.
pub open spec fn word_mask(s: Seq<char>) -> u32
    decreases s.len(),
{
    if s.len() == 0 {
        0u32
    } else {
        word_mask(s.drop_last()) | letter_bit(s.last())
    }
}

/// The number of set bits of `m`: how many distinct letters a mask holds.
pub open spec fn ones(m: u32) -> nat
    decreases m,
{
    if m == 0 {
        0
    } else {
        (m % 2) as nat + ones(m / 2)
    }
}

/// The set of distinct word masks occurring in a list of words: the
/// vocabulary as the search sees it, with anagrams and duplicates collapsed.
pub open spec fn mask_set(words: Seq<Seq<char>>) -> Set<u32> {
    Set::new(|m: u32| exists|i: int| 0 <= i < words.len() && word_mask(words[i]) == m)
}

/// The words of a list whose letters form exactly the mask `m`, in list
/// order: one anagram group of the vocabulary.
pub open spec fn words_with_mask(words: Seq<Seq<char>>, m: u32) -> Seq<Seq<char>>
    decreases words.len(),
{
    if words.len() == 0 {
        Seq::empty()
    } else {
        let rest = words_with_mask(words.drop_last(), m);
        if word_mask(words.last()) == m {
            rest.push(words.last())
        } else {
            rest
        }
    }
}

/// `ones` counts nothing exactly on the empty mask.
pub proof fn lemma_ones_zero(m: u32)
    ensures
        ones(m) == 0 <==> m == 0,
    decreases m,
{
    if m != 0 && m % 2 == 0 {
        lemma_ones_zero(m / 2);
    }
}

proof fn lemma_ones_below_pow2(m: u32, k: nat)
    requires
        m < pow2(k),
    ensures
        ones(m) <= k,
    decreases k,
{
    if k == 0 {
        vstd::arithmetic::power2::lemma_pow2(0);
        assert(pow2(0) == 1) by {
            vstd::arithmetic::power::lemma_pow0(2);
        }
    } else {
        vstd::arithmetic::power2::lemma_pow2_unfold(k);
        lemma_ones_below_pow2(m / 2, (k - 1) as nat);
    }
}

/// A 32-bit mask holds at most 32 letters.
pub proof fn lemma_ones_le_32(m: u32)
    ensures
        ones(m) <= 32,
{
    lemma2_to64();
    lemma_ones_below_pow2(m, 32);
}

/// Counting bits distributes over union and intersection: together the two
/// masks hold as many bits as their union and their overlap combined.
pub proof fn lemma_ones_union_intersection(a: u32, b: u32)
    ensures
        ones(a | b) + ones(a & b) == ones(a) + ones(b),
    decreases a + b,
{
    if a == 0 && b == 0 {
        assert((0u32 | 0u32) == 0u32 && (0u32 & 0u32) == 0u32) by (bit_vector);
    } else {
        lemma_ones_union_intersection(a / 2, b / 2);
        assert((a | b) / 2 == (a / 2) | (b / 2) && (a & b) / 2 == (a / 2) & (b / 2))
            by (bit_vector);
        assert((a | b) % 2 + (a & b) % 2 == a % 2 + b % 2) by (bit_vector);
        assert(a / 2 + b / 2 < a + b) by (bit_vector)
            requires
                !(a == 0 && b == 0),
        ;
    }
}

/// Disjoint masks add their letter counts under union.
pub proof fn lemma_ones_disjoint_union(a: u32, b: u32)
    requires
        a & b == 0,
    ensures
        ones(a | b) == ones(a) + ones(b),
{
    lemma_ones_union_intersection(a, b);
}

/// The union of a sequence of masks.
pub open spec fn or_all(ms: Seq<u32>) -> u32
    decreases ms.len(),
{
    if ms.len() == 0 {
        0u32
    } else {
        or_all(ms.drop_last()) | ms.last()
    }
}

/// The letter counts of a sequence of masks, added one by one.
pub open spec fn ones_sum(ms: Seq<u32>) -> nat
    decreases ms.len(),
{
    if ms.len() == 0 {
        0
    } else {
        ones_sum(ms.drop_last()) + ones(ms.last())
    }
}

/// A mask disjoint from every element of a sequence is disjoint from the
/// sequence's union.
proof fn lemma_or_all_disjoint(ms: Seq<u32>, m: u32)
    requires
        forall|i: int| 0 <= i < ms.len() ==> #[trigger] ms[i] & m == 0,
    ensures
        or_all(ms) & m == 0,
    decreases ms.len(),
{
    if ms.len() == 0 {
        assert(0u32 & m == 0) by (bit_vector);
    } else {
        lemma_or_all_disjoint(ms.drop_last(), m);
        let a = or_all(ms.drop_last());
        let b = ms.last();
        assert(ms[ms.len() - 1] & m == 0);
        assert(a & m == 0 && b & m == 0 ==> (a | b) & m == 0) by (bit_vector);
    }
}

/// Pairwise disjoint masks add their letter counts under union: no letter
/// is counted twice across the whole sequence.
pub proof fn lemma_disjoint_masks_count(ms: Seq<u32>)
    requires
        forall|i: int, j: int| 0 <= i < j < ms.len() ==> #[trigger] ms[i] & #[trigger] ms[j] == 0,
    ensures
        ones(or_all(ms)) == ones_sum(ms),
    decreases ms.len(),
{
    if ms.len() > 0 {
        let prefix = ms.drop_last();
        let last = ms.last();
        assert forall|i: int, j: int| 0 <= i < j < prefix.len() implies #[trigger] prefix[i]
            & #[trigger] prefix[j] == 0 by {
            assert(ms[i] & ms[j] == 0);
        }
        lemma_disjoint_masks_count(prefix);
        assert forall|i: int| 0 <= i < prefix.len() implies #[trigger] prefix[i] & last == 0 by {
            assert(ms[i] & ms[ms.len() - 1] == 0);
        }
        lemma_or_all_disjoint(prefix, last);
        lemma_ones_disjoint_union(or_all(prefix), last);
    }
}

/// Every word of an anagram group has exactly the group's mask.
pub proof fn lemma_words_with_mask_member(ws: Seq<Seq<char>>, m: u32, w: Seq<char>)
    requires
        words_with_mask(ws, m).contains(w),
    ensures
        word_mask(w) == m,
    decreases ws.len(),
{
    if ws.len() > 0 {
        let rest = words_with_mask(ws.drop_last(), m);
        if word_mask(ws.last()) == m {
            let n = choose|n: int|
                0 <= n < rest.push(ws.last()).len() && rest.push(ws.last())[n] == w;
            if n < rest.len() {
                assert(rest[n] == w);
                assert(rest.contains(w));
                lemma_words_with_mask_member(ws.drop_last(), m, w);
            } else {
                assert(w == ws.last());
            }
        } else {
            lemma_words_with_mask_member(ws.drop_last(), m, w);
        }
    }
}

/// A nonempty lowercase word has a nonempty mask.
pub proof fn lemma_word_mask_nonzero(s: Seq<char>)
    requires
        s.len() > 0,
        lower_word(s),
    ensures
        word_mask(s) != 0,
{
    let c = s.last();
    let sh = (c as u32 - 97) as u32;
    let rest = word_mask(s.drop_last());
    assert(sh < 26 ==> (rest | (1u32 << sh)) != 0) by (bit_vector);
}

/// A lowercase word's mask stays within the 26 alphabet bits.
pub proof fn lemma_word_mask_in_alphabet(s: Seq<char>)
    requires
        lower_word(s),
    ensures
        word_mask(s) < 0x4000000,
    decreases s.len(),
{
    if s.len() > 0 {
        assert(lower_word(s.drop_last()));
        lemma_word_mask_in_alphabet(s.drop_last());
        let rest = word_mask(s.drop_last());
        let sh = (s.last() as u32 - 97) as u32;
        assert(rest < 0x4000000 && sh < 26 ==> (rest | (1u32 << sh)) < 0x4000000)
            by (bit_vector);
    }
}

/// Removing one character removes exactly its bit contribution: the mask of
/// `s` is the mask of `s` without position `i`, united with that letter's bit.
pub proof fn lemma_word_mask_remove(s: Seq<char>, i: int)
    requires
        0 <= i < s.len(),
    ensures
        word_mask(s) == word_mask(s.remove(i)) | letter_bit(s[i]),
    decreases s.len(),
{
    if i == s.len() - 1 {
        assert(s.remove(i) =~= s.drop_last());
    } else {
        let shorter = s.drop_last();
        lemma_word_mask_remove(shorter, i);
        assert(s.remove(i).drop_last() =~= shorter.remove(i));
        assert(s.remove(i).last() == s.last());
        let x = word_mask(shorter.remove(i));
        let p = letter_bit(s[i]);
        let q = letter_bit(s.last());
        assert((x | p) | q == (x | q) | p) by (bit_vector);
    }
}

/// Two words with the same letters in any order (anagrams) have the same
/// mask, so they construct equal signatures.
pub proof fn lemma_anagrams_same_mask(s1: Seq<char>, s2: Seq<char>)
    requires
        s1.to_multiset() == s2.to_multiset(),
    ensures
        word_mask(s1) == word_mask(s2),
    decreases s1.len(),
{
    broadcast use vstd::seq_lib::group_to_multiset_ensures;

    if s1.len() == 0 {
        assert(s2.to_multiset().len() == 0);
        assert(s2.len() == 0);
    } else {
        let c = s1.last();
        let n = s1.len() - 1;
        assert(s1.to_multiset().contains(c));
        assert(s2.to_multiset().contains(c));
        assert(s2.contains(c));
        let i = choose|i: int| 0 <= i < s2.len() && s2[i] == c;
        assert(s1.drop_last() =~= s1.remove(n));
        assert(s1.remove(n).to_multiset() == s1.to_multiset().remove(c));
        assert(s2.remove(i).to_multiset() == s2.to_multiset().remove(c));
        lemma_anagrams_same_mask(s1.drop_last(), s2.remove(i));
        lemma_word_mask_remove(s2, i);
    }
}

} // verus!
