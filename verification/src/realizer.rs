//! Realize packings into Wordle solutions (that are optimally bad).

use crate::letters::{lower_word, mask_set, word_mask, words_with_mask};
use crate::packer::{wordlist_ok, Packing};
use crate::seqs::lemma_insert_to_multiset;
use crate::signature::Signature;
use crate::wordorder::{lemma_lex_total, lex_le, lex_leq, lex_sorted, str_le};
use vstd::prelude::*;

verus! {

broadcast use vstd::seq_lib::group_to_multiset_ensures, vstd::multiset::group_multiset_axioms;

/// The views of a vector of words, element by element.
proof fn lemma_words_deep(v: Vec<String>)
    ensures
        v.deep_view().len() == v@.len(),
        forall|i: int| 0 <= i < v@.len() ==> v.deep_view()[i] == (#[trigger] v@[i])@,
{
}

/// The views of a vector of word lists, element by element.
proof fn lemma_lists_deep(v: Vec<Vec<String>>)
    ensures
        v.deep_view().len() == v@.len(),
        forall|i: int| 0 <= i < v@.len() ==> v.deep_view()[i] == (#[trigger] v@[i]).deep_view(),
{
}

/// Insert one word into a lexicographically sorted vector, keeping it
/// sorted.
fn insert_word_sorted(out: &mut Vec<String>, x: String)
    requires
        lex_sorted(old(out).deep_view()),
    ensures
        lex_sorted(final(out).deep_view()),
        final(out).deep_view().to_multiset() == old(out).deep_view().to_multiset().insert(x@),
{
    proof {
        lemma_lex_total();
        lemma_words_deep(*out);
    }
    let ghost xv = x@;
    let mut pos: usize = 0;
    while pos < out.len() && str_le(&out[pos], x.as_str())
        invariant
            pos <= out@.len(),
            lex_sorted(out.deep_view()),
            out@ == old(out)@,
            forall|k: int| 0 <= k < pos ==> lex_le(out.deep_view()[k], xv),
            xv == x@,
        decreases out@.len() - pos,
    {
        proof {
            lemma_words_deep(*out);
        }
        pos = pos + 1;
    }
    proof {
        lemma_words_deep(*out);
        if pos < out@.len() {
            assert(!lex_le(out.deep_view()[pos as int], xv));
            crate::wordorder::lemma_lex_total();
            assert(lex_leq()(out.deep_view()[pos as int], xv) || lex_leq()(
                xv,
                out.deep_view()[pos as int],
            ));
            assert(lex_le(xv, out.deep_view()[pos as int]));
        }
    }
    let ghost pre = out@;
    let ghost pre_deep = out.deep_view();
    out.insert(pos, x);
    proof {
        lemma_words_deep(*out);
        pre.insert_ensures(pos as int, x);
        assert(out.deep_view() =~= pre_deep.insert(pos as int, xv)) by {
            pre_deep.insert_ensures(pos as int, xv);
            assert forall|i: int| 0 <= i < out@.len() implies out.deep_view()[i]
                == pre_deep.insert(pos as int, xv)[i] by {
                if i < pos {
                    assert(out@[i] == pre[i]);
                } else if i == pos {
                    assert(out@[i] == x);
                } else {
                    assert(out@[i] == pre[i - 1]);
                }
            }
        }
        lemma_insert_to_multiset(pre_deep, pos as int, xv);
        assert(lex_sorted(out.deep_view())) by {
            assert forall|a: int, b: int| 0 <= a < b < out@.len() implies lex_le(
                out.deep_view()[a],
                out.deep_view()[b],
            ) by {
                let d = out.deep_view();
                let lt = lex_leq();
                if b < pos {
                    assert(d[a] == pre_deep[a] && d[b] == pre_deep[b]);
                } else if a < pos && b == pos {
                    assert(d[a] == pre_deep[a] && d[b] == xv);
                } else if a < pos && b > pos {
                    assert(d[a] == pre_deep[a] && d[b] == pre_deep[b - 1]);
                    assert(a < b - 1);
                    assert(lex_le(pre_deep[a], pre_deep[b - 1]));
                } else if a == pos {
                    assert(d[a] == xv && d[b] == pre_deep[b - 1]);
                    assert(b - 1 >= pos);
                    assert(pos < pre_deep.len());
                    assert(lex_le(xv, pre_deep[pos as int]));
                    if b - 1 == pos {
                        assert(lex_le(xv, pre_deep[b - 1]));
                    } else {
                        assert(lex_le(pre_deep[pos as int], pre_deep[b - 1]));
                        assert(lt(xv, pre_deep[pos as int]) && lt(
                            pre_deep[pos as int],
                            pre_deep[b - 1],
                        ));
                        assert(lex_le(xv, pre_deep[b - 1]));
                    }
                } else {
                    assert(d[a] == pre_deep[a - 1] && d[b] == pre_deep[b - 1]);
                }
            }
        }
    }
}

/// Sort a vector of words into nondecreasing lexicographic order; the
/// result is a rearrangement of the input.
fn sort_words(v: Vec<String>) -> (out: Vec<String>)
    ensures
        lex_sorted(out.deep_view()),
        out.deep_view().to_multiset() == v.deep_view().to_multiset(),
        out@.len() == v@.len(),
{
    let mut out: Vec<String> = Vec::new();
    let mut i: usize = 0;
    proof {
        lemma_words_deep(v);
        lemma_words_deep(out);
        assert(v.deep_view().take(0) =~= Seq::<Seq<char>>::empty());
        assert(out.deep_view() =~= Seq::<Seq<char>>::empty());
    }
    while i < v.len()
        invariant
            i <= v@.len(),
            lex_sorted(out.deep_view()),
            out.deep_view().to_multiset() == v.deep_view().take(i as int).to_multiset(),
            out@.len() == i,
        decreases v@.len() - i,
    {
        let x = (&v[i]).clone();
        proof {
            lemma_words_deep(v);
        }
        insert_word_sorted(&mut out, x);
        proof {
            assert(v.deep_view().take(i as int + 1).drop_last() =~= v.deep_view().take(i as int));
            assert(v.deep_view().take(i as int + 1) =~= v.deep_view().take(i as int).push(
                v.deep_view()[i as int],
            ));
            assert(out@.len() == out.deep_view().len());
            assert(out.deep_view().len() == out.deep_view().to_multiset().len());
            assert(v.deep_view().take(i as int).to_multiset().len() == i);
            assert(v.deep_view().take(i as int + 1).to_multiset().len() == i + 1);
        }
        i = i + 1;
    }
    proof {
        lemma_words_deep(v);
        assert(v.deep_view().take(v@.len() as int) =~= v.deep_view());
        assert(out.deep_view().len() == out.deep_view().to_multiset().len());
        assert(v.deep_view().len() == v.deep_view().to_multiset().len());
    }
    out
}

/// An optimally bad Wordle solution: one answer word and six guess words
/// that share no letter with it or with one another.
#[derive(Clone, Hash, Debug)]
pub struct BadWordleSolution {
    pub answer: String,
    pub guesses: Vec<String>,
}

impl BadWordleSolution {
    /// Whether two solutions carry the same words: the same answer, and the
    /// same six guesses in the same canonical order.
    pub open spec fn same_solution(self, other: Self) -> bool {
        self.answer@ == other.answer@ && self.guesses.deep_view() == other.guesses.deep_view()
    }

    /// Construct a new `BadWordleSolution`; the guesses are sorted into
    /// canonical lexicographic order.
    pub fn new(answer: String, guesses: Vec<String>) -> (sol: Self)
        requires
            guesses@.len() == 6,
        ensures
            sol.answer == answer,
            sol.guesses@.len() == 6,
            lex_sorted(sol.guesses.deep_view()),
            sol.guesses.deep_view().to_multiset() == guesses.deep_view().to_multiset(),
    {
        let sorted = sort_words(guesses);
        Self { answer, guesses: sorted }
    }

    /// Returns the answer word.
    pub fn answer(&self) -> (a: &String)
        ensures
            *a == self.answer,
    {
        &self.answer
    }

    /// Returns the guess words.
    pub fn guesses(&self) -> (g: &Vec<String>)
        ensures
            *g == self.guesses,
    {
        &self.guesses
    }
}

impl PartialEq for BadWordleSolution {
    fn eq(&self, other: &BadWordleSolution) -> (r: bool) {
        proof {
            lemma_words_deep(self.guesses);
            lemma_words_deep(other.guesses);
        }
        if !(self.answer == other.answer) {
            proof {
                assert(!self.same_solution(*other));
            }
            return false;
        }
        if self.guesses.len() != other.guesses.len() {
            proof {
                assert(self.guesses.deep_view().len() != other.guesses.deep_view().len());
            }
            return false;
        }
        let mut i: usize = 0;
        while i < self.guesses.len()
            invariant
                i <= self.guesses@.len(),
                self.guesses@.len() == other.guesses@.len(),
                forall|j: int|
                    0 <= j < i ==> self.guesses.deep_view()[j] == other.guesses.deep_view()[j],
            decreases self.guesses@.len() - i,
        {
            proof {
                lemma_words_deep(self.guesses);
                lemma_words_deep(other.guesses);
            }
            if !(self.guesses[i] == other.guesses[i]) {
                proof {
                    assert(self.guesses.deep_view()[i as int] != other.guesses.deep_view()[
                        i as int
                    ]);
                    assert(!self.same_solution(*other));
                }
                return false;
            }
            i = i + 1;
        }
        proof {
            assert(self.guesses.deep_view() =~= other.guesses.deep_view());
        }
        true
    }
}

impl Eq for BadWordleSolution {

}

impl vstd::std_specs::cmp::PartialEqSpecImpl for BadWordleSolution {
    open spec fn obeys_eq_spec() -> bool {
        true
    }

    open spec fn eq_spec(&self, other: &BadWordleSolution) -> bool {
        self.same_solution(*other)
    }
}

/// Whether a list of solutions already holds one carrying these words.
pub open spec fn holds_solution(v: Seq<BadWordleSolution>, s: BadWordleSolution) -> bool {
    exists|i: int| 0 <= i < v.len() && (#[trigger] v[i]).same_solution(s)
}

/// Whether a vector of solutions holds one carrying the same words.
fn contains_solution(v: &Vec<BadWordleSolution>, x: &BadWordleSolution) -> (r: bool)
    ensures
        r == holds_solution(v@, *x),
{
    let mut n: usize = 0;
    while n < v.len()
        invariant
            n <= v@.len(),
            forall|m: int| 0 <= m < n ==> !(#[trigger] v@[m]).same_solution(*x),
        decreases v@.len() - n,
    {
        if &v[n] == x {
            return true;
        }
        n = n + 1;
    }
    false
}

/// A signature-to-words lookup table: the vocabulary's anagram groups, one
/// entry per distinct signature, keyed by pairwise distinct signatures.
pub struct WordGroups {
    pub entries: Vec<(Signature, Vec<String>)>,
}

impl WordGroups {
    /// Keys are pairwise distinct, and every group is nonempty.
    pub open spec fn wf(self) -> bool {
        forall|a: int, b: int|
            0 <= a < b < self.entries@.len() ==> (#[trigger] self.entries@[a]).0.mask() != (
            #[trigger] self.entries@[b]).0.mask()
    }

    /// Whether some entry is keyed by the mask `m`.
    pub open spec fn contains_key(self, m: u32) -> bool {
        exists|i: int|
            0 <= i < self.entries@.len() && (#[trigger] self.entries@[i]).0.mask() == m
    }

    /// The index of the entry keyed by `m`.
    pub open spec fn key_index(self, m: u32) -> int {
        choose|i: int| 0 <= i < self.entries@.len() && (#[trigger] self.entries@[i]).0.mask() == m
    }

    /// The anagram group stored under mask `m`.
    pub open spec fn group(self, m: u32) -> Seq<Seq<char>> {
        self.entries@[self.key_index(m)].1.deep_view()
    }

    /// Look up the anagram group of one signature.
    pub fn lookup(&self, sig: Signature) -> (r: Option<&Vec<String>>)
        requires
            self.wf(),
        ensures
            match r {
                None => !self.contains_key(sig.mask()),
                Some(g) => self.contains_key(sig.mask()) && g.deep_view() == self.group(
                    sig.mask(),
                ),
            },
    {
        let mut i: usize = 0;
        while i < self.entries.len()
            invariant
                self.wf(),
                i <= self.entries@.len(),
                forall|j: int| 0 <= j < i ==> (#[trigger] self.entries@[j]).0.mask() != sig.mask(),
            decreases self.entries@.len() - i,
        {
            if self.entries[i].0 == sig {
                proof {
                    assert(self.entries@[i as int].0.mask() == sig.mask());
                    assert(self.contains_key(sig.mask()));
                    let ki = self.key_index(sig.mask());
                    assert(0 <= ki < self.entries@.len() && self.entries@[ki].0.mask()
                        == sig.mask());
                    if ki != i as int {
                        let a = if ki < i as int {
                            ki
                        } else {
                            i as int
                        };
                        let b = if ki < i as int {
                            i as int
                        } else {
                            ki
                        };
                        assert(0 <= a < b < self.entries@.len());
                        assert((self.entries@[a]).0.mask() != (self.entries@[b]).0.mask());
                        assert(false);
                    }
                }
                return Some(&self.entries[i].1);
            }
            i = i + 1;
        }
        None
    }
}

/// Realizes packings into Wordle solutions (that are optimally bad).
///
/// The realizer takes disjoint signature packings and generates all
/// possible word combinations by looking up each signature's corresponding
/// words and taking their Cartesian product.
pub struct Realizer {

}

impl Realizer {
    /// Build the signature-to-words lookup tables for both vocabularies.
    pub fn compile_realizations(answers: &Vec<&str>, guesses: &Vec<&str>) -> (tables: (
        WordGroups,
        WordGroups,
    ))
        requires
            wordlist_ok(answers@),
            wordlist_ok(guesses@),
        ensures
            tables.0.wf(),
            tables.1.wf(),
            forall|m: u32|
                #[trigger] tables.0.contains_key(m) <==> mask_set(answers.deep_view()).contains(
                    m,
                ),
            forall|m: u32|
                #[trigger] tables.1.contains_key(m) <==> mask_set(guesses.deep_view()).contains(
                    m,
                ),
            forall|m: u32|
                #[trigger] tables.0.contains_key(m) ==> tables.0.group(m) == words_with_mask(
                    answers.deep_view(),
                    m,
                ),
            forall|m: u32|
                #[trigger] tables.1.contains_key(m) ==> tables.1.group(m) == words_with_mask(
                    guesses.deep_view(),
                    m,
                ),
    {
        (group_words(answers), group_words(guesses))
    }
}

/// Group one vocabulary's words by signature.
fn group_words(words: &Vec<&str>) -> (table: WordGroups)
    requires
        wordlist_ok(words@),
    ensures
        table.wf(),
        forall|m: u32|
            #[trigger] table.contains_key(m) <==> mask_set(words.deep_view()).contains(m),
        forall|m: u32|
            #[trigger] table.contains_key(m) ==> table.group(m) == words_with_mask(
                words.deep_view(),
                m,
            ),
{
    let keys = crate::packer::signatures_of(words);
    let mut entries: Vec<(Signature, Vec<String>)> = Vec::new();
    let mut p: usize = 0;
    while p < keys.len()
        invariant
            p <= keys@.len(),
            entries@.len() == p,
            wordlist_ok(words@),
            crate::packer::sig_strictly_sorted(keys@),
            forall|s: Signature|
                keys@.contains(s) <==> mask_set(words.deep_view()).contains(s.mask()),
            forall|q: int| 0 <= q < p ==> (#[trigger] entries@[q]).0 == keys@[q],
            forall|q: int|
                0 <= q < p ==> (#[trigger] entries@[q]).1.deep_view() == words_with_mask(
                    words.deep_view(),
                    entries@[q].0.mask(),
                ),
        decreases keys@.len() - p,
    {
        let key = keys[p];
        let group = collect_group(words, key);
        entries.push((key, group));
        proof {
            assert(entries@[entries@.len() - 1] == (key, group));
        }
        p = p + 1;
    }
    let table = WordGroups { entries };
    proof {
        assert(table.wf()) by {
            assert forall|a: int, b: int|
                0 <= a < b < table.entries@.len() implies (#[trigger] table.entries@[a]).0.mask()
                != (#[trigger] table.entries@[b]).0.mask() by {
                assert(table.entries@[a].0 == keys@[a] && table.entries@[b].0 == keys@[b]);
            }
        }
        assert forall|m: u32|
            #[trigger] table.contains_key(m) <==> mask_set(words.deep_view()).contains(m) by {
            if table.contains_key(m) {
                let i = choose|i: int|
                    0 <= i < table.entries@.len() && (#[trigger] table.entries@[i]).0.mask() == m;
                assert(keys@[i] == table.entries@[i].0);
                assert(keys@.contains(keys@[i]));
                assert(mask_set(words.deep_view()).contains(m));
            }
            if mask_set(words.deep_view()).contains(m) {
                let s = Signature::spec_from_mask(m);
                assert(s.mask() == m);
                assert(keys@.contains(s));
                let i = choose|i: int| 0 <= i < keys@.len() && keys@[i] == s;
                assert(table.entries@[i].0.mask() == m);
                assert(table.contains_key(m));
            }
        }
        assert forall|m: u32| #[trigger] table.contains_key(m) implies table.group(m)
            == words_with_mask(words.deep_view(), m) by {
            let ki = table.key_index(m);
            assert(0 <= ki < table.entries@.len() && table.entries@[ki].0.mask() == m);
        }
    }
    table
}

/// Collect the words of one anagram group: every word of the vocabulary
/// whose letters form exactly the signature's mask, in list order.
fn collect_group(words: &Vec<&str>, key: Signature) -> (group: Vec<String>)
    requires
        wordlist_ok(words@),
    ensures
        group.deep_view() == words_with_mask(words.deep_view(), key.mask()),
{
    let mut group: Vec<String> = Vec::new();
    let mut j: usize = 0;
    proof {
        lemma_words_deep(group);
        assert(words.deep_view().take(0) =~= Seq::<Seq<char>>::empty());
        assert(group.deep_view() =~= words_with_mask(words.deep_view().take(0), key.mask()));
    }
    while j < words.len()
        invariant
            j <= words@.len(),
            wordlist_ok(words@),
            group.deep_view() == words_with_mask(
                words.deep_view().take(j as int),
                key.mask(),
            ),
        decreases words@.len() - j,
    {
        let w = words[j];
        let sig = Signature::new(w);
        let ghost pre_deep = group.deep_view();
        if sig == key {
            group.push(w.to_owned());
            proof {
                lemma_words_deep(group);
                assert(group.deep_view() =~= pre_deep.push(w@));
            }
        }
        proof {
            assert(words.deep_view().take(j as int + 1).drop_last() =~= words.deep_view().take(
                j as int,
            ));
            assert(words.deep_view().take(j as int + 1).last() == words.deep_view()[j as int]);
            assert(words.deep_view()[j as int] == w@);
            assert(word_mask(w@) == sig.mask());
        }
        j = j + 1;
    }
    proof {
        assert(words.deep_view().take(words@.len() as int) =~= words.deep_view());
    }
    group
}

/// Clone a vector of words, keeping every word's characters.
fn clone_words(v: &Vec<String>) -> (out: Vec<String>)
    ensures
        out.deep_view() == v.deep_view(),
        out@.len() == v@.len(),
{
    let mut out: Vec<String> = Vec::new();
    let mut i: usize = 0;
    while i < v.len()
        invariant
            i <= v@.len(),
            out@.len() == i,
            forall|j: int| 0 <= j < i ==> (#[trigger] out@[j])@ == v@[j]@,
        decreases v@.len() - i,
    {
        out.push((&v[i]).clone());
        i = i + 1;
    }
    proof {
        lemma_words_deep(*v);
        lemma_words_deep(out);
        assert(out.deep_view() =~= v.deep_view());
    }
    out
}

/// The number of ways to choose one word from each list in turn: the
/// realization count of one packing before deduplication.
pub open spec fn product_count(lists: Seq<Seq<Seq<char>>>) -> nat
    decreases lists.len(),
{
    if lists.len() == 0 {
        1
    } else {
        lists[0].len() * product_count(lists.drop_first())
    }
}

/// Whether `c` picks one word of each list, in order.
pub open spec fn is_combo(lists: Seq<Seq<Seq<char>>>, c: Seq<Seq<char>>) -> bool {
    c.len() == lists.len() && forall|i: int|
        0 <= i < lists.len() ==> #[trigger] lists[i].contains(c[i])
}

/// One choice from the first list glued onto one choice of the rest.
spec fn assembled(first: Seq<Seq<char>>, rest: Seq<Seq<Seq<char>>>, a: int, b: int) -> Seq<
    Seq<char>,
> {
    seq![first[a]] + rest[b]
}

/// All ways of choosing one word from each of the lists from `start` on.
#[verifier::rlimit(50)]
fn combos_from(lists: &Vec<Vec<String>>, start: usize) -> (combos: Vec<Vec<String>>)
    requires
        start <= lists@.len(),
    ensures
        combos.deep_view().len() == product_count(lists.deep_view().skip(start as int)),
        forall|c: Seq<Seq<char>>|
            #[trigger] combos.deep_view().contains(c) <==> is_combo(
                lists.deep_view().skip(start as int),
                c,
            ),
    decreases lists@.len() - start,
{
    let ghost suffix = lists.deep_view().skip(start as int);
    if start == lists.len() {
        let mut combos: Vec<Vec<String>> = Vec::new();
        let empty: Vec<String> = Vec::new();
        combos.push(empty);
        proof {
            lemma_lists_deep(combos);
            assert(suffix.len() == 0);
            assert(combos.deep_view().len() == 1);
            assert(combos.deep_view()[0] =~= Seq::<Seq<char>>::empty());
            assert(product_count(suffix) == 1);
            assert forall|c: Seq<Seq<char>>|
                #[trigger] combos.deep_view().contains(c) <==> is_combo(suffix, c) by {
                if combos.deep_view().contains(c) {
                    let n = choose|n: int|
                        0 <= n < combos.deep_view().len() && combos.deep_view()[n] == c;
                    assert(c.len() == 0);
                }
                if is_combo(suffix, c) {
                    assert(c.len() == 0);
                    assert(c =~= combos.deep_view()[0]);
                    assert(combos.deep_view().contains(c));
                }
            }
        }
        return combos;
    }
    let rest = combos_from(lists, start + 1);
    let ghost rest_deep = rest.deep_view();
    let ghost first_deep = lists.deep_view()[start as int];
    proof {
        lemma_lists_deep(*lists);
        assert(suffix[0] == first_deep);
        assert(suffix.drop_first() =~= lists.deep_view().skip(start as int + 1));
        assert(product_count(suffix) == first_deep.len() * product_count(suffix.drop_first()));
    }
    let mut combos: Vec<Vec<String>> = Vec::new();
    let mut a: usize = 0;
    while a < lists[start].len()
        invariant
            start < lists@.len(),
            a <= first_deep.len(),
            first_deep == lists.deep_view()[start as int],
            first_deep.len() == lists@[start as int]@.len(),
            rest_deep == rest.deep_view(),
            rest_deep.len() == rest@.len(),
            forall|c: Seq<Seq<char>>|
                #[trigger] rest_deep.contains(c) <==> is_combo(suffix.drop_first(), c),
            suffix == lists.deep_view().skip(start as int),
            suffix.len() == lists@.len() - start,
            suffix[0] == first_deep,
            suffix.drop_first() =~= lists.deep_view().skip(start as int + 1),
            combos@.len() == a * rest_deep.len(),
            combos.deep_view().len() == combos@.len(),
            forall|n: int|
                0 <= n < combos.deep_view().len() ==> is_combo(
                    suffix,
                    #[trigger] combos.deep_view()[n],
                ),
            forall|a2: int, b2: int|
                0 <= a2 < a && 0 <= b2 < rest_deep.len() ==> combos.deep_view().contains(
                    #[trigger] assembled(first_deep, rest_deep, a2, b2),
                ),
        decreases first_deep.len() - a,
    {
        let word = &lists[start][a];
        proof {
            lemma_words_deep(lists[start as int]);
            assert(word@ == first_deep[a as int]);
        }
        let mut b: usize = 0;
        while b < rest.len()
            invariant
                start < lists@.len(),
                a < first_deep.len(),
                b <= rest_deep.len(),
                first_deep == lists.deep_view()[start as int],
                word@ == first_deep[a as int],
                rest_deep == rest.deep_view(),
                rest_deep.len() == rest@.len(),
                forall|c: Seq<Seq<char>>|
                    #[trigger] rest_deep.contains(c) <==> is_combo(suffix.drop_first(), c),
                suffix == lists.deep_view().skip(start as int),
                suffix.len() == lists@.len() - start,
                suffix[0] == first_deep,
                suffix.drop_first() =~= lists.deep_view().skip(start as int + 1),
                combos@.len() == a * rest_deep.len() + b,
                combos.deep_view().len() == combos@.len(),
                forall|n: int|
                    0 <= n < combos.deep_view().len() ==> is_combo(
                        suffix,
                        #[trigger] combos.deep_view()[n],
                    ),
                forall|a2: int, b2: int|
                    0 <= a2 < a && 0 <= b2 < rest_deep.len() ==> combos.deep_view().contains(
                        #[trigger] assembled(first_deep, rest_deep, a2, b2),
                    ),
                forall|b2: int|
                    0 <= b2 < b ==> combos.deep_view().contains(
                        #[trigger] assembled(first_deep, rest_deep, a as int, b2),
                    ),
            decreases rest_deep.len() - b,
        {
            let mut cc = clone_words(&rest[b]);
            proof {
                lemma_lists_deep(rest);
                assert(cc.deep_view() == rest_deep[b as int]);
            }
            let ghost cc_pre = cc@;
            let ghost cc_pre_deep = cc.deep_view();
            cc.insert(0, word.clone());
            proof {
                lemma_words_deep(cc);
                cc_pre.insert_ensures(0, *word);
                assert(cc.deep_view() =~= assembled(first_deep, rest_deep, a as int, b as int))
                    by {
                    assert(cc@.len() == cc_pre.len() + 1);
                    assert(cc@[0] == *word);
                    assert forall|j: int| 0 < j < cc@.len() implies (#[trigger] cc.deep_view()[j])
                        == rest_deep[b as int][j - 1] by {
                        assert(cc@[j] == cc_pre[j - 1]);
                        lemma_words_deep(cc);
                    }
                }
            }
            let ghost combos_pre_deep = combos.deep_view();
            combos.push(cc);
            proof {
                lemma_lists_deep(combos);
                assert(combos.deep_view() =~= combos_pre_deep.push(
                    assembled(first_deep, rest_deep, a as int, b as int),
                ));
                assert(is_combo(suffix, assembled(first_deep, rest_deep, a as int, b as int)))
                    by {
                    let c = assembled(first_deep, rest_deep, a as int, b as int);
                    assert(rest_deep.contains(rest_deep[b as int]));
                    assert(is_combo(suffix.drop_first(), rest_deep[b as int]));
                    assert(c.len() == suffix.len());
                    assert forall|i: int| 0 <= i < suffix.len() implies #[trigger] suffix[i].contains(
                        c[i],
                    ) by {
                        if i == 0 {
                            assert(c[0] == first_deep[a as int]);
                            assert(first_deep.contains(first_deep[a as int]));
                        } else {
                            assert(c[i] == rest_deep[b as int][i - 1]);
                            assert(suffix.drop_first()[i - 1].contains(rest_deep[b as int][i
                                - 1]));
                        }
                    }
                }
                assert forall|a2: int, b2: int|
                    0 <= a2 < a && 0 <= b2 < rest_deep.len() implies combos.deep_view().contains(
                    #[trigger] assembled(first_deep, rest_deep, a2, b2),
                ) by {
                    crate::seqs::lemma_push_contains(
                        combos_pre_deep,
                        assembled(first_deep, rest_deep, a as int, b as int),
                        assembled(first_deep, rest_deep, a2, b2),
                    );
                }
                assert forall|b2: int|
                    0 <= b2 < b + 1 implies combos.deep_view().contains(
                    #[trigger] assembled(first_deep, rest_deep, a as int, b2),
                ) by {
                    if b2 < b {
                        crate::seqs::lemma_push_contains(
                            combos_pre_deep,
                            assembled(first_deep, rest_deep, a as int, b as int),
                            assembled(first_deep, rest_deep, a as int, b2),
                        );
                    } else {
                        assert(combos.deep_view()[combos.deep_view().len() - 1] == assembled(
                            first_deep,
                            rest_deep,
                            a as int,
                            b as int,
                        ));
                    }
                }
            }
            b = b + 1;
        }
        proof {
            let la = a as int;
            let ll = rest_deep.len() as int;
            assert((la + 1) * ll == la * ll + ll) by (nonlinear_arith);
        }
        a = a + 1;
    }
    proof {
        assert(combos.deep_view().len() == first_deep.len() * product_count(
            suffix.drop_first(),
        )) by {
            assert(rest_deep.len() == product_count(suffix.drop_first()));
        }
        assert forall|c: Seq<Seq<char>>|
            #[trigger] combos.deep_view().contains(c) <==> is_combo(suffix, c) by {
            if combos.deep_view().contains(c) {
                let n = choose|n: int|
                    0 <= n < combos.deep_view().len() && combos.deep_view()[n] == c;
                assert(is_combo(suffix, combos.deep_view()[n]));
            }
            if is_combo(suffix, c) {
                assert(suffix[0].contains(c[0]));
                let a2 = choose|a2: int| 0 <= a2 < first_deep.len() && first_deep[a2] == c[0];
                let tail = c.drop_first();
                assert(is_combo(suffix.drop_first(), tail)) by {
                    assert(tail.len() == suffix.drop_first().len());
                    assert forall|i: int|
                        0 <= i < suffix.drop_first().len() implies #[trigger] suffix.drop_first()[
                        i
                    ].contains(tail[i]) by {
                        assert(suffix[i + 1].contains(c[i + 1]));
                    }
                }
                assert(rest_deep.contains(tail));
                let b2 = choose|b2: int| 0 <= b2 < rest_deep.len() && rest_deep[b2] == tail;
                assert(assembled(first_deep, rest_deep, a2, b2) =~= c);
                assert(combos.deep_view().contains(assembled(first_deep, rest_deep, a2, b2)));
            }
        }
    }
    combos
}

/// All ways of choosing one word from each list: the Cartesian product of
/// the word groups. Before any deduplication, one packing denotes exactly
/// this many word tuples: the product of its seven group sizes.
pub fn word_combinations(lists: &Vec<Vec<String>>) -> (combos: Vec<Vec<String>>)
    ensures
        combos.deep_view().len() == product_count(lists.deep_view()),
        forall|c: Seq<Seq<char>>|
            #[trigger] combos.deep_view().contains(c) <==> is_combo(lists.deep_view(), c),
{
    let combos = combos_from(lists, 0);
    proof {
        assert(lists.deep_view().skip(0) =~= lists.deep_view());
    }
    combos
}

/// The realizer's internal-invariant failure: a packing references a
/// signature absent from the lookup tables, which can only happen when the
/// packing was built from different vocabularies than the tables.
#[derive(Clone, Copy, PartialEq, Eq, Structural, Hash, Debug)]
pub enum RealizeError {
    UnknownSignature,
}

/// No two solutions of the list carry the same words.
pub open spec fn distinct_solutions(v: Seq<BadWordleSolution>) -> bool {
    forall|a: int, b: int|
        0 <= a < b < v.len() ==> !(#[trigger] v[a]).same_solution(#[trigger] v[b])
}

/// A solution realizes a packing over the given word groups: its answer is
/// drawn from the answer group, and its six guesses are the canonical
/// rearrangement of one choice from each guess group.
pub open spec fn realizes(
    answer_group: Seq<Seq<char>>,
    guess_groups: Seq<Seq<Seq<char>>>,
    s: BadWordleSolution,
) -> bool {
    &&& answer_group.contains(s.answer@)
    &&& s.guesses@.len() == 6
    &&& lex_sorted(s.guesses.deep_view())
    &&& exists|w: Seq<Seq<char>>|
        #![trigger w.to_multiset()]
        w.len() == 6 && (forall|i: int| 0 <= i < 6 ==> #[trigger] guess_groups[i].contains(w[i]))
            && s.guesses.deep_view().to_multiset() == w.to_multiset()
}

/// The six guess groups a packing points at, in slot order.
pub open spec fn packing_guess_groups(gr: WordGroups, p: Packing) -> Seq<Seq<Seq<char>>> {
    Seq::new(6, |i: int| gr.group(p.guesses@[i].mask()))
}

/// The seven word lists a packing draws from, answer group first.
pub open spec fn packing_word_lists(ar: WordGroups, gr: WordGroups, p: Packing) -> Seq<
    Seq<Seq<char>>,
> {
    seq![ar.group(p.answer.mask())] + packing_guess_groups(gr, p)
}

/// A solution realizes a packing through the lookup tables.
pub open spec fn realizes_packing(
    ar: WordGroups,
    gr: WordGroups,
    p: Packing,
    s: BadWordleSolution,
) -> bool {
    realizes(ar.group(p.answer.mask()), packing_guess_groups(gr, p), s)
}

/// What a solution built from one word tuple looks like: the tuple's first
/// word as answer, the other six sorted canonically.
spec fn combo_solution(c: Seq<Seq<char>>, s: BadWordleSolution) -> bool {
    &&& c.len() == 7
    &&& s.answer@ == c[0]
    &&& s.guesses@.len() == 6
    &&& lex_sorted(s.guesses.deep_view())
    &&& s.guesses.deep_view().to_multiset() == c.drop_first().to_multiset()
}

/// One word tuple yields one solution value: two solutions built from the
/// same tuple carry the same words.
proof fn lemma_combo_solution_unique(
    c: Seq<Seq<char>>,
    s1: BadWordleSolution,
    s2: BadWordleSolution,
)
    requires
        combo_solution(c, s1),
        combo_solution(c, s2),
    ensures
        s1.same_solution(s2),
{
    lemma_lex_total();
    vstd::seq_lib::lemma_sorted_unique(
        s1.guesses.deep_view(),
        s2.guesses.deep_view(),
        lex_leq(),
    );
}

impl Realizer {
    /// Convert a single packing into its (optimally bad) Wordle solutions:
    /// every way of drawing the answer from its anagram group and the six
    /// guesses from theirs, deduplicated.
    ///
    /// A signature missing from the lookup tables means the packing was
    /// built from other vocabularies than the tables; that internal
    /// invariant violation is reported as an error, never silently
    /// recovered.
    #[verifier::rlimit(100)]
    pub fn realize_packing(
        answer_realizations: &WordGroups,
        guess_realizations: &WordGroups,
        packing: &Packing,
    ) -> (r: Result<Vec<BadWordleSolution>, RealizeError>)
        requires
            answer_realizations.wf(),
            guess_realizations.wf(),
        ensures
            r is Err <==> !(answer_realizations.contains_key(packing.answer.mask()) && forall|
                i: int,
            |
                0 <= i < 6 ==> guess_realizations.contains_key(
                    (#[trigger] packing.guesses@[i]).mask(),
                )),
            r matches Ok(sols) ==> {
                &&& distinct_solutions(sols@)
                &&& sols@.len() <= product_count(
                    packing_word_lists(*answer_realizations, *guess_realizations, *packing),
                )
                &&& forall|s: BadWordleSolution|
                    #![trigger holds_solution(sols@, s)]
                    holds_solution(sols@, s) <==> realizes_packing(
                        *answer_realizations,
                        *guess_realizations,
                        *packing,
                        s,
                    )
            },
    {
        let a_group = match answer_realizations.lookup(*packing.answer()) {
            Some(g) => g,
            None => {
                return Err(RealizeError::UnknownSignature);
            },
        };
        let gsigs = packing.guesses();
        let g0 = match guess_realizations.lookup(gsigs[0]) {
            Some(g) => g,
            None => {
                return Err(RealizeError::UnknownSignature);
            },
        };
        let g1 = match guess_realizations.lookup(gsigs[1]) {
            Some(g) => g,
            None => {
                return Err(RealizeError::UnknownSignature);
            },
        };
        let g2 = match guess_realizations.lookup(gsigs[2]) {
            Some(g) => g,
            None => {
                return Err(RealizeError::UnknownSignature);
            },
        };
        let g3 = match guess_realizations.lookup(gsigs[3]) {
            Some(g) => g,
            None => {
                return Err(RealizeError::UnknownSignature);
            },
        };
        let g4 = match guess_realizations.lookup(gsigs[4]) {
            Some(g) => g,
            None => {
                return Err(RealizeError::UnknownSignature);
            },
        };
        let g5 = match guess_realizations.lookup(gsigs[5]) {
            Some(g) => g,
            None => {
                return Err(RealizeError::UnknownSignature);
            },
        };
        let mut lists: Vec<Vec<String>> = Vec::new();
        lists.push(clone_words(a_group));
        lists.push(clone_words(g0));
        lists.push(clone_words(g1));
        lists.push(clone_words(g2));
        lists.push(clone_words(g3));
        lists.push(clone_words(g4));
        lists.push(clone_words(g5));
        let ghost target = packing_word_lists(*answer_realizations, *guess_realizations, *packing);
        proof {
            lemma_lists_deep(lists);
            assert(lists.deep_view() =~= target) by {
                assert(lists.deep_view().len() == 7);
                assert(target.len() == 7);
                assert(lists.deep_view()[0] == a_group.deep_view());
                assert(target[0] == answer_realizations.group(packing.answer.mask()));
                assert forall|i: int| 0 < i < 7 implies lists.deep_view()[i] == target[i] by {
                    assert(target[i] == packing_guess_groups(*guess_realizations, *packing)[i
                        - 1]);
                }
            }
        }
        let combos = word_combinations(&lists);
        let ghost lists_deep = lists.deep_view();
        let mut sols: Vec<BadWordleSolution> = Vec::new();
        let mut k: usize = 0;
        proof {
            lemma_lists_deep(combos);
        }
        while k < combos.len()
            invariant
                k <= combos@.len(),
                combos@.len() == combos.deep_view().len(),
                lists_deep.len() == 7,
                forall|c: Seq<Seq<char>>|
                    #[trigger] combos.deep_view().contains(c) <==> is_combo(lists_deep, c),
                sols@.len() <= k,
                distinct_solutions(sols@),
                forall|s: BadWordleSolution|
                    #![trigger holds_solution(sols@, s)]
                    holds_solution(sols@, s) <==> exists|n: int|
                        0 <= n < k && combo_solution(#[trigger] combos.deep_view()[n], s),
            decreases combos@.len() - k,
        {
            let combo = &combos[k];
            proof {
                lemma_lists_deep(combos);
                lemma_words_deep(*combo);
                assert(combos.deep_view()[k as int] == combo.deep_view());
                assert(combos.deep_view().contains(combos.deep_view()[k as int]));
                assert(is_combo(lists_deep, combos.deep_view()[k as int]));
                assert(combo@.len() == 7);
            }
            let answer_word = (&combo[0]).clone();
            let mut gw: Vec<String> = Vec::new();
            gw.push((&combo[1]).clone());
            gw.push((&combo[2]).clone());
            gw.push((&combo[3]).clone());
            gw.push((&combo[4]).clone());
            gw.push((&combo[5]).clone());
            gw.push((&combo[6]).clone());
            proof {
                lemma_words_deep(gw);
                lemma_words_deep(*combo);
                assert(gw.deep_view() =~= combo.deep_view().drop_first());
            }
            let sol = BadWordleSolution::new(answer_word, gw);
            proof {
                assert(combo_solution(combos.deep_view()[k as int], sol));
            }
            let ghost before = sols@;
            let fresh = !contains_solution(&sols, &sol);
            if fresh {
                sols.push(sol);
                proof {
                    assert(sols@[sols@.len() - 1] == sol);
                    assert(distinct_solutions(sols@)) by {
                        assert forall|a: int, b: int| 0 <= a < b < sols@.len() implies !(
                        #[trigger] sols@[a]).same_solution(#[trigger] sols@[b]) by {
                            if b == sols@.len() - 1 {
                                assert(sols@[a] == before[a]);
                                assert(!before[a].same_solution(sol));
                            } else {
                                assert(sols@[a] == before[a] && sols@[b] == before[b]);
                            }
                        }
                    }
                }
            }
            proof {
                assert forall|s: BadWordleSolution|
                    #![trigger holds_solution(sols@, s)]
                    holds_solution(sols@, s) <==> exists|n: int|
                        0 <= n < k + 1 && combo_solution(
                            #[trigger] combos.deep_view()[n],
                            s,
                        ) by {
                    if holds_solution(sols@, s) {
                        let idx = choose|i: int|
                            0 <= i < sols@.len() && (#[trigger] sols@[i]).same_solution(s);
                        if idx < before.len() {
                            assert(before[idx].same_solution(s));
                            assert(holds_solution(before, s));
                            let n = choose|n: int|
                                0 <= n < k && combo_solution(#[trigger] combos.deep_view()[n], s);
                            assert(combo_solution(combos.deep_view()[n], s));
                        } else {
                            assert(sols@[idx] == sol);
                            assert(sol.same_solution(s));
                            lemma_words_deep(s.guesses);
                            lemma_words_deep(sol.guesses);
                            assert(s.guesses@.len() == s.guesses.deep_view().len());
                            assert(combo_solution(combos.deep_view()[k as int], s));
                        }
                    }
                    if exists|n: int|
                        0 <= n < k + 1 && combo_solution(#[trigger] combos.deep_view()[n], s) {
                        let n = choose|n: int|
                            0 <= n < k + 1 && combo_solution(#[trigger] combos.deep_view()[n], s);
                        if n < k {
                            assert(holds_solution(before, s));
                            let i = choose|i: int|
                                0 <= i < before.len() && (#[trigger] before[i]).same_solution(s);
                            assert(sols@[i] == before[i]);
                            assert(holds_solution(sols@, s));
                        } else {
                            lemma_combo_solution_unique(combos.deep_view()[k as int], sol, s);
                            if fresh {
                                assert(sols@[sols@.len() - 1].same_solution(s));
                                assert(holds_solution(sols@, s));
                            } else {
                                assert(holds_solution(before, sol));
                                let i = choose|i: int|
                                    0 <= i < before.len() && (#[trigger] before[i]).same_solution(
                                        sol,
                                    );
                                assert(before[i].same_solution(s));
                                assert(sols@[i] == before[i]);
                                assert(holds_solution(sols@, s));
                            }
                        }
                    }
                }
            }
            k = k + 1;
        }
        proof {
            assert forall|s: BadWordleSolution|
                #![trigger holds_solution(sols@, s)]
                holds_solution(sols@, s) <==> realizes_packing(
                    *answer_realizations,
                    *guess_realizations,
                    *packing,
                    s,
                ) by {
                let agroup = answer_realizations.group(packing.answer.mask());
                let ggroups = packing_guess_groups(*guess_realizations, *packing);
                if holds_solution(sols@, s) {
                    let n = choose|n: int|
                        0 <= n < combos.deep_view().len() && combo_solution(
                            #[trigger] combos.deep_view()[n],
                            s,
                        );
                    let c = combos.deep_view()[n];
                    assert(combos.deep_view().contains(c));
                    assert(is_combo(lists_deep, c));
                    assert(lists_deep[0].contains(c[0]));
                    assert(lists_deep == target);
                    assert(target[0] == agroup);
                    assert(agroup.contains(s.answer@));
                    let w = c.drop_first();
                    assert(w.len() == 6);
                    assert forall|i: int| 0 <= i < 6 implies #[trigger] ggroups[i].contains(
                        w[i],
                    ) by {
                        assert(lists_deep[i + 1].contains(c[i + 1]));
                        assert(target[i + 1] == ggroups[i]);
                        assert(w[i] == c[i + 1]);
                    }
                    assert(s.guesses.deep_view().to_multiset() == w.to_multiset());
                    assert(realizes(agroup, ggroups, s));
                }
                if realizes_packing(*answer_realizations, *guess_realizations, *packing, s) {
                    let w = choose|w: Seq<Seq<char>>|
                        #![trigger w.to_multiset()]
                        w.len() == 6 && (forall|i: int|
                            0 <= i < 6 ==> #[trigger] ggroups[i].contains(w[i]))
                            && s.guesses.deep_view().to_multiset() == w.to_multiset();
                    let c = seq![s.answer@] + w;
                    assert(is_combo(lists_deep, c)) by {
                        assert(c.len() == 7);
                        assert forall|i: int| 0 <= i < 7 implies #[trigger] lists_deep[i].contains(
                            c[i],
                        ) by {
                            if i == 0 {
                                assert(c[0] == s.answer@);
                                assert(target[0] == agroup);
                            } else {
                                assert(c[i] == w[i - 1]);
                                assert(target[i] == ggroups[i - 1]);
                                assert(ggroups[i - 1].contains(w[i - 1]));
                            }
                        }
                    }
                    assert(combos.deep_view().contains(c));
                    let n = choose|n: int|
                        0 <= n < combos.deep_view().len() && combos.deep_view()[n] == c;
                    assert(combo_solution(combos.deep_view()[n], s)) by {
                        assert(c[0] == s.answer@);
                        assert(c.drop_first() =~= w);
                    }
                    assert(holds_solution(sols@, s));
                }
            }
            assert(sols@.len() <= product_count(target)) by {
                assert(combos.deep_view().len() == product_count(lists_deep));
            }
        }
        Ok(sols)
    }

    /// Realize every packing of the set over the two word lists, merging
    /// the per-packing solution sets into one duplicate-free set.
    #[verifier::rlimit(100)]
    pub fn realize_packings(
        answers: &Vec<&str>,
        guesses: &Vec<&str>,
        packings: &Vec<Packing>,
    ) -> (r: Result<Vec<BadWordleSolution>, RealizeError>)
        requires
            wordlist_ok(answers@),
            wordlist_ok(guesses@),
        ensures
            r is Err <==> exists|n: int|
                0 <= n < packings@.len() && !packing_realizable(
                    answers.deep_view(),
                    guesses.deep_view(),
                    #[trigger] packings@[n],
                ),
            r matches Ok(sols) ==> {
                &&& distinct_solutions(sols@)
                &&& forall|s: BadWordleSolution|
                    #![trigger holds_solution(sols@, s)]
                    holds_solution(sols@, s) <==> exists|n: int|
                        0 <= n < packings@.len() && realizes_words(
                            answers.deep_view(),
                            guesses.deep_view(),
                            #[trigger] packings@[n],
                            s,
                        )
            },
    {
        let ghost aws = answers.deep_view();
        let ghost gws = guesses.deep_view();
        let tables = Self::compile_realizations(answers, guesses);
        let ar = tables.0;
        let gr = tables.1;
        let mut sols: Vec<BadWordleSolution> = Vec::new();
        let mut i: usize = 0;
        while i < packings.len()
            invariant
                i <= packings@.len(),
                aws == answers.deep_view(),
                gws == guesses.deep_view(),
                ar.wf(),
                gr.wf(),
                forall|m: u32| #[trigger] ar.contains_key(m) <==> mask_set(aws).contains(m),
                forall|m: u32| #[trigger] gr.contains_key(m) <==> mask_set(gws).contains(m),
                forall|m: u32|
                    #[trigger] ar.contains_key(m) ==> ar.group(m) == words_with_mask(aws, m),
                forall|m: u32|
                    #[trigger] gr.contains_key(m) ==> gr.group(m) == words_with_mask(gws, m),
                distinct_solutions(sols@),
                forall|n: int|
                    0 <= n < i ==> packing_realizable(aws, gws, #[trigger] packings@[n]),
                forall|s: BadWordleSolution|
                    #![trigger holds_solution(sols@, s)]
                    holds_solution(sols@, s) <==> exists|n: int|
                        0 <= n < i && realizes_words(aws, gws, #[trigger] packings@[n], s),
            decreases packings@.len() - i,
        {
            let packing = &packings[i];
            let ghost p = packings@[i as int];
            let mut per = match Self::realize_packing(&ar, &gr, packing) {
                Ok(v) => v,
                Err(_) => {
                    proof {
                        assert(!(ar.contains_key(p.answer.mask()) && forall|q: int|
                            0 <= q < 6 ==> gr.contains_key((#[trigger] p.guesses@[q]).mask())));
                        assert(!packing_realizable(aws, gws, p)) by {
                            if packing_realizable(aws, gws, p) {
                                assert(ar.contains_key(p.answer.mask()));
                                assert forall|q: int| 0 <= q < 6 implies gr.contains_key(
                                    (#[trigger] p.guesses@[q]).mask(),
                                ) by {
                                    assert(mask_set(gws).contains(p.guesses@[q].mask()));
                                }
                            }
                        }
                    }
                    return Err(RealizeError::UnknownSignature);
                },
            };
            let ghost per_all = per@;
            proof {
                assert(ar.contains_key(p.answer.mask()) && forall|q: int|
                    0 <= q < 6 ==> gr.contains_key((#[trigger] p.guesses@[q]).mask()));
                assert(packing_realizable(aws, gws, p)) by {
                    assert(mask_set(aws).contains(p.answer.mask()));
                    assert forall|q: int| 0 <= q < 6 implies mask_set(gws).contains(
                        (#[trigger] p.guesses@[q]).mask(),
                    ) by {
                        assert(gr.contains_key(p.guesses@[q].mask()));
                    }
                }
                assert(ar.group(p.answer.mask()) == words_with_mask(aws, p.answer.mask()));
                assert(packing_guess_groups(gr, p) =~= Seq::new(
                    6,
                    |q: int| words_with_mask(gws, p.guesses@[q].mask()),
                )) by {
                    assert forall|q: int| 0 <= q < 6 implies packing_guess_groups(gr, p)[q]
                        == words_with_mask(gws, p.guesses@[q].mask()) by {
                        assert(gr.contains_key(p.guesses@[q].mask()));
                    }
                }
                assert forall|s: BadWordleSolution|
                    #[trigger] holds_solution(per_all, s) <==> realizes_words(aws, gws, p, s) by {
                    assert(holds_solution(per_all, s) <==> realizes_packing(ar, gr, p, s));
                }
            }
            let mut k: usize = 0;
            proof {
                assert(per_all.len() == per.len());
            }
            while per.len() > 0
                invariant
                    per_all.len() <= usize::MAX,
                    k + per@.len() == per_all.len(),
                    per@ =~= per_all.skip(k as int),
                    i < packings@.len(),
                    p == packings@[i as int],
                    distinct_solutions(sols@),
                    forall|s: BadWordleSolution|
                        #[trigger] holds_solution(per_all, s) <==> realizes_words(
                            aws,
                            gws,
                            p,
                            s,
                        ),
                    forall|s: BadWordleSolution|
                        #![trigger holds_solution(sols@, s)]
                        holds_solution(sols@, s) <==> (exists|n: int|
                            0 <= n < i && realizes_words(aws, gws, #[trigger] packings@[n], s))
                            || (exists|m: int|
                            0 <= m < k && (#[trigger] per_all[m]).same_solution(s)),
                decreases per@.len(),
            {
                let cand = per.remove(0);
                proof {
                    assert(cand == per_all.skip(k as int)[0]);
                    assert(cand == per_all[k as int]);
                    assert(per@ =~= per_all.skip(k as int + 1));
                }
                let ghost before = sols@;
                let fresh = !contains_solution(&sols, &cand);
                if fresh {
                    sols.push(cand);
                    proof {
                        assert(sols@[sols@.len() - 1] == cand);
                        assert(distinct_solutions(sols@)) by {
                            assert forall|a: int, b: int| 0 <= a < b < sols@.len() implies !(
                            #[trigger] sols@[a]).same_solution(#[trigger] sols@[b]) by {
                                if b == sols@.len() - 1 {
                                    assert(sols@[a] == before[a]);
                                    assert(!before[a].same_solution(cand));
                                } else {
                                    assert(sols@[a] == before[a] && sols@[b] == before[b]);
                                }
                            }
                        }
                    }
                }
                proof {
                    assert forall|s: BadWordleSolution|
                        #![trigger holds_solution(sols@, s)]
                        holds_solution(sols@, s) <==> ((exists|n: int|
                            0 <= n < i && realizes_words(aws, gws, #[trigger] packings@[n], s))
                            || (exists|m: int|
                            0 <= m < k + 1 && (#[trigger] per_all[m]).same_solution(s))) by {
                        if holds_solution(sols@, s) {
                            let idx = choose|j: int|
                                0 <= j < sols@.len() && (#[trigger] sols@[j]).same_solution(s);
                            if idx < before.len() {
                                assert(before[idx].same_solution(s));
                                assert(holds_solution(before, s));
                            } else {
                                assert(sols@[idx] == cand);
                                assert(per_all[k as int].same_solution(s));
                            }
                        }
                        if exists|m: int|
                            0 <= m < k + 1 && (#[trigger] per_all[m]).same_solution(s) {
                            let m = choose|m: int|
                                0 <= m < k + 1 && (#[trigger] per_all[m]).same_solution(s);
                            if m < k {
                                assert(holds_solution(before, s));
                                let j = choose|j: int|
                                    0 <= j < before.len() && (#[trigger] before[j]).same_solution(
                                        s,
                                    );
                                assert(sols@[j] == before[j]);
                                assert(holds_solution(sols@, s));
                            } else {
                                assert(per_all[k as int].same_solution(s));
                                if fresh {
                                    assert(sols@[sols@.len() - 1].same_solution(s));
                                    assert(holds_solution(sols@, s));
                                } else {
                                    assert(holds_solution(before, cand));
                                    let j = choose|j: int|
                                        0 <= j < before.len() && (
                                        #[trigger] before[j]).same_solution(cand);
                                    assert(before[j].same_solution(s));
                                    assert(sols@[j] == before[j]);
                                    assert(holds_solution(sols@, s));
                                }
                            }
                        }
                        if exists|n: int|
                            0 <= n < i && realizes_words(aws, gws, #[trigger] packings@[n], s) {
                            assert(holds_solution(before, s));
                            let j = choose|j: int|
                                0 <= j < before.len() && (#[trigger] before[j]).same_solution(s);
                            assert(sols@[j] == before[j]);
                            assert(holds_solution(sols@, s));
                        }
                    }
                }
                k = k + 1;
            }
            proof {
                assert(per_all.skip(k as int).len() == 0);
                assert(k == per_all.len());
                assert forall|s: BadWordleSolution|
                    #![trigger holds_solution(sols@, s)]
                    holds_solution(sols@, s) <==> exists|n: int|
                        0 <= n < i + 1 && realizes_words(
                            aws,
                            gws,
                            #[trigger] packings@[n],
                            s,
                        ) by {
                    if holds_solution(sols@, s) {
                        if exists|m: int| 0 <= m < k && (#[trigger] per_all[m]).same_solution(s) {
                            let m = choose|m: int|
                                0 <= m < k && (#[trigger] per_all[m]).same_solution(s);
                            assert(holds_solution(per_all, s));
                            assert(realizes_words(aws, gws, packings@[i as int], s));
                        }
                    } else {
                        if exists|n: int|
                            0 <= n < i + 1 && realizes_words(
                                aws,
                                gws,
                                #[trigger] packings@[n],
                                s,
                            ) {
                            let n = choose|n: int|
                                0 <= n < i + 1 && realizes_words(
                                    aws,
                                    gws,
                                    #[trigger] packings@[n],
                                    s,
                                );
                            if n == i {
                                assert(holds_solution(per_all, s));
                                let m = choose|m: int|
                                    0 <= m < per_all.len() && (
                                    #[trigger] per_all[m]).same_solution(s);
                                assert(holds_solution(sols@, s));
                            }
                        }
                    }
                }
            }
            i = i + 1;
        }
        Ok(sols)
    }
}

/// The mask of every word of the solution, answer first.
pub open spec fn solution_masks(s: BadWordleSolution) -> Seq<u32> {
    seq![word_mask(s.answer@)] + Seq::new(6, |j: int| word_mask(s.guesses.deep_view()[j]))
}

/// Zero letter overlap: for a solution realizing a pairwise disjoint
/// packing, the combined unique-letter count across all seven words equals
/// the sum of each word's individual unique-letter count.
pub proof fn lemma_realization_zero_overlap(
    aws: Seq<Seq<char>>,
    gws: Seq<Seq<char>>,
    p: Packing,
    s: BadWordleSolution,
)
    requires
        crate::packer::packing_disjoint(p),
        forall|i: int| 0 <= i < 6 ==> (#[trigger] p.guesses@[i]).mask() != 0,
        realizes_words(aws, gws, p, s),
    ensures
        crate::letters::ones(crate::letters::or_all(solution_masks(s))) ==
            crate::letters::ones_sum(solution_masks(s)),
{
    let am = p.answer.mask();
    let sgd = s.guesses.deep_view();
    let groups = Seq::new(6, |i: int| words_with_mask(gws, p.guesses@[i].mask()));
    crate::letters::lemma_words_with_mask_member(aws, am, s.answer@);
    let w = choose|w: Seq<Seq<char>>|
        #![trigger w.to_multiset()]
        w.len() == 6 && (forall|i: int| 0 <= i < 6 ==> #[trigger] groups[i].contains(w[i]))
            && sgd.to_multiset() == w.to_multiset();
    assert forall|i: int| 0 <= i < 6 implies word_mask(#[trigger] w[i]) == p.guesses@[i].mask()
        by {
        assert(groups[i].contains(w[i]));
        crate::letters::lemma_words_with_mask_member(gws, p.guesses@[i].mask(), w[i]);
    }
    assert(w.no_duplicates()) by {
        assert forall|i1: int, i2: int| 0 <= i1 < i2 < 6 implies w[i1] != w[i2] by {
            if w[i1] == w[i2] {
                assert(p.guesses@[i1].mask() == p.guesses@[i2].mask());
                assert(p.guesses@[i1].disjoint(p.guesses@[i2]));
                let m = p.guesses@[i1].mask();
                assert(m & m == 0 ==> m == 0) by (bit_vector);
            }
        }
    }
    w.lemma_multiset_has_no_duplicates();
    assert(sgd.no_duplicates()) by {
        assert(forall|x: Seq<char>|
            sgd.to_multiset().contains(x) ==> #[trigger] sgd.to_multiset().count(x) == 1);
        sgd.lemma_multiset_has_no_duplicates_conv();
    }
    lemma_words_deep(s.guesses);
    assert(sgd.len() == 6);
    let ms = solution_masks(s);
    assert(ms.len() == 7);
    assert(ms[0] == word_mask(s.answer@));
    assert(word_mask(s.answer@) == am);
    assert forall|j: int| 0 <= j < 6 implies ms[j + 1] == word_mask(sgd[j]) by {
        assert(ms[j + 1] == Seq::new(6, |j2: int| word_mask(sgd[j2]))[j]);
    }
    assert forall|j: int| #![trigger sgd[j]] 0 <= j < 6 implies exists|i: int|
        0 <= i < 6 && #[trigger] w[i] == sgd[j] by {
        assert(sgd.contains(sgd[j]));
        assert(sgd.to_multiset().count(sgd[j]) > 0);
        assert(w.to_multiset().count(sgd[j]) > 0);
        assert(w.contains(sgd[j]));
        let i = choose|i: int| 0 <= i < w.len() && w[i] == sgd[j];
        assert(w[i] == sgd[j]);
    }
    assert forall|a: int, b: int| 0 <= a < b < ms.len() implies #[trigger] ms[a] & #[trigger] ms[b]
        == 0 by {
        if a == 0 {
            let j = b - 1;
            let i = choose|i: int| 0 <= i < 6 && #[trigger] w[i] == sgd[j];
            assert(ms[b] == word_mask(sgd[j]));
            assert(word_mask(w[i]) == p.guesses@[i].mask());
            assert(p.guesses@[i].disjoint(p.answer));
            let g = p.guesses@[i].mask();
            assert(g & am == 0 ==> am & g == 0) by (bit_vector);
        } else {
            let j1 = a - 1;
            let j2 = b - 1;
            assert(sgd[j1] != sgd[j2]);
            let i1 = choose|i: int| 0 <= i < 6 && #[trigger] w[i] == sgd[j1];
            let i2 = choose|i: int| 0 <= i < 6 && #[trigger] w[i] == sgd[j2];
            assert(i1 != i2);
            assert(ms[a] == p.guesses@[i1].mask());
            assert(ms[b] == p.guesses@[i2].mask());
            if i1 < i2 {
                assert(p.guesses@[i1].disjoint(p.guesses@[i2]));
            } else {
                assert(p.guesses@[i2].disjoint(p.guesses@[i1]));
                let x = p.guesses@[i1].mask();
                let y = p.guesses@[i2].mask();
                assert(y & x == 0 ==> x & y == 0) by (bit_vector);
            }
        }
    }
    crate::letters::lemma_disjoint_masks_count(ms);
}

/// The deduplicated realization count is pinned by the solution-membership
/// contract: any two duplicate-free lists that hold solutions for exactly
/// the same words — such as two runs of the realizer over one packing —
/// agree in length.
pub proof fn lemma_solution_count_determined(
    l1: Seq<BadWordleSolution>,
    l2: Seq<BadWordleSolution>,
)
    requires
        distinct_solutions(l1),
        distinct_solutions(l2),
        forall|s: BadWordleSolution|
            #![trigger holds_solution(l1, s), holds_solution(l2, s)]
            holds_solution(l1, s) <==> holds_solution(l2, s),
    ensures
        l1.len() == l2.len(),
    decreases l1.len(),
{
    if l1.len() == 0 {
        if l2.len() > 0 {
            assert(l2[0].same_solution(l2[0]));
            assert(holds_solution(l2, l2[0]));
            assert(holds_solution(l1, l2[0]));
            let m = choose|m: int| 0 <= m < l1.len() && (#[trigger] l1[m]).same_solution(l2[0]);
        }
    } else {
        let s0 = l1[0];
        assert(l1[0].same_solution(s0));
        assert(holds_solution(l1, s0));
        assert(holds_solution(l2, s0));
        let j = choose|j: int| 0 <= j < l2.len() && (#[trigger] l2[j]).same_solution(s0);
        let l1r = l1.remove(0);
        let l2r = l2.remove(j);
        l1.remove_ensures(0);
        l2.remove_ensures(j);
        assert(distinct_solutions(l1r)) by {
            assert forall|a: int, b: int| 0 <= a < b < l1r.len() implies !(
            #[trigger] l1r[a]).same_solution(#[trigger] l1r[b]) by {
                assert(l1r[a] == l1[a + 1] && l1r[b] == l1[b + 1]);
            }
        }
        assert(distinct_solutions(l2r)) by {
            assert forall|a: int, b: int| 0 <= a < b < l2r.len() implies !(
            #[trigger] l2r[a]).same_solution(#[trigger] l2r[b]) by {
                if b < j {
                    assert(l2r[a] == l2[a] && l2r[b] == l2[b]);
                } else if a < j {
                    assert(l2r[a] == l2[a] && l2r[b] == l2[b + 1]);
                } else {
                    assert(l2r[a] == l2[a + 1] && l2r[b] == l2[b + 1]);
                }
            }
        }
        assert forall|s: BadWordleSolution|
            #![trigger holds_solution(l1r, s), holds_solution(l2r, s)]
            holds_solution(l1r, s) <==> holds_solution(l2r, s) by {
            if holds_solution(l1r, s) {
                let m = choose|m: int| 0 <= m < l1r.len() && (#[trigger] l1r[m]).same_solution(s);
                assert(l1r[m] == l1[m + 1]);
                assert(holds_solution(l1, s));
                assert(holds_solution(l2, s));
                let j2 = choose|j2: int|
                    0 <= j2 < l2.len() && (#[trigger] l2[j2]).same_solution(s);
                if j2 == j {
                    assert(l2[j].same_solution(s0) && l2[j].same_solution(s));
                    assert(l1[m + 1].same_solution(s));
                    assert(l1[0].same_solution(s0));
                    assert(l1[0].same_solution(l1[m + 1]));
                    assert(false);
                } else if j2 < j {
                    assert(l2r[j2] == l2[j2]);
                    assert(holds_solution(l2r, s));
                } else {
                    assert(l2r[j2 - 1] == l2[j2]);
                    assert(holds_solution(l2r, s));
                }
            }
            if holds_solution(l2r, s) {
                let m = choose|m: int| 0 <= m < l2r.len() && (#[trigger] l2r[m]).same_solution(s);
                if m < j {
                    assert(l2r[m] == l2[m]);
                } else {
                    assert(l2r[m] == l2[m + 1]);
                }
                assert(holds_solution(l2, s));
                assert(holds_solution(l1, s));
                let i2 = choose|i2: int|
                    0 <= i2 < l1.len() && (#[trigger] l1[i2]).same_solution(s);
                if i2 == 0 {
                    let mj = if m < j {
                        m
                    } else {
                        m + 1
                    };
                    assert(l2[mj].same_solution(s));
                    assert(l1[0].same_solution(s0) && l1[0].same_solution(s));
                    assert(l2[j].same_solution(s0));
                    assert(l2[j].same_solution(l2[mj]));
                    assert(mj != j);
                    if mj < j {
                        assert(!l2[mj].same_solution(l2[j]));
                    } else {
                        assert(!l2[j].same_solution(l2[mj]));
                    }
                    assert(false);
                } else {
                    assert(l1r[i2 - 1] == l1[i2]);
                    assert(holds_solution(l1r, s));
                }
            }
        }
        lemma_solution_count_determined(l1r, l2r);
    }
}

/// Every signature of the packing occurs in the vocabularies' mask sets,
/// so the realizer's lookups cannot miss.
pub open spec fn packing_realizable(
    aws: Seq<Seq<char>>,
    gws: Seq<Seq<char>>,
    p: Packing,
) -> bool {
    &&& mask_set(aws).contains(p.answer.mask())
    &&& forall|i: int| 0 <= i < 6 ==> mask_set(gws).contains((#[trigger] p.guesses@[i]).mask())
}

/// A solution realizes a packing straight over the word lists: its words
/// are drawn from the anagram groups the packing's signatures select.
pub open spec fn realizes_words(
    aws: Seq<Seq<char>>,
    gws: Seq<Seq<char>>,
    p: Packing,
    s: BadWordleSolution,
) -> bool {
    realizes(
        words_with_mask(aws, p.answer.mask()),
        Seq::new(6, |i: int| words_with_mask(gws, p.guesses@[i].mask())),
        s,
    )
}

} // verus!
