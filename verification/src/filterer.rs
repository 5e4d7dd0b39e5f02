//! Filters lettersets to identify all valid disjoint packings.

use crate::letters::mask_set;
use crate::letterset::LetterSet;
use crate::packer;
use crate::packer::wordlist_ok;
use crate::seqs::lemma_insert_to_multiset;
use crate::signature::Signature;
use vstd::array::{spec_array_update, spec_array_fill_for_copy_type};
use vstd::prelude::*;

verus! {

broadcast use vstd::array::group_array_axioms, vstd::seq_lib::group_to_multiset_ensures, vstd::multiset::group_multiset_axioms;

/// Nondecreasing by mask value.
pub open spec fn ls_sorted(s: Seq<LetterSet>) -> bool {
    forall|i: int, j: int| 0 <= i < j < s.len() ==> s[i].mask() <= s[j].mask()
}

/// Strictly increasing by mask value; such a sequence holds no duplicates.
pub open spec fn ls_strictly_sorted(s: Seq<LetterSet>) -> bool {
    forall|i: int, j: int| 0 <= i < j < s.len() ==> s[i].mask() < s[j].mask()
}

/// All 21 disjointness conditions a packing stands for.
pub open spec fn ls_packing_disjoint(p: Packing) -> bool {
    &&& forall|i: int| 0 <= i < 6 ==> p.guesses@[i].disjoint(p.answer)
    &&& forall|i: int, j: int| 0 <= i < j < 6 ==> p.guesses@[i].disjoint(p.guesses@[j])
}

/// What the filterer owes for one answer: `p` belongs to the result exactly
/// when its guesses are drawn from `gs`, everything is pairwise disjoint,
/// and the guesses are held in canonical (strictly increasing) order.
pub open spec fn valid_ls_packing(answer: LetterSet, gs: Seq<LetterSet>, p: Packing) -> bool {
    &&& p.answer == answer
    &&& forall|i: int| 0 <= i < 6 ==> gs.contains(p.guesses@[i])
    &&& ls_packing_disjoint(p)
    &&& ls_strictly_sorted(p.guesses@)
}

/// A signature-level packing and a letterset-level packing carrying the
/// same masks.
spec fn corresponds(pp: packer::Packing, fp: Packing) -> bool {
    &&& pp.answer.mask() == fp.answer.mask()
    &&& forall|i: int|
        0 <= i < 6 ==> pp.guesses@[i].mask() == (#[trigger] fp.guesses@[i]).mask()
}

/// A solution—a 7-packing of disjoint lettersets (1 answer + 6 guesses).
#[derive(Clone, Copy, Hash, Debug)]
pub struct Packing {
    pub answer: LetterSet,
    pub guesses: [LetterSet; 6],
}

impl PartialEq for Packing {
    fn eq(&self, other: &Packing) -> (r: bool) {
        let fields_eq = self.answer == other.answer && self.guesses[0] == other.guesses[0]
            && self.guesses[1] == other.guesses[1] && self.guesses[2] == other.guesses[2]
            && self.guesses[3] == other.guesses[3] && self.guesses[4] == other.guesses[4]
            && self.guesses[5] == other.guesses[5];
        proof {
            if fields_eq {
                assert(self.guesses =~= other.guesses);
            }
        }
        fields_eq
    }
}

impl Eq for Packing {

}

impl vstd::std_specs::cmp::PartialEqSpecImpl for Packing {
    open spec fn obeys_eq_spec() -> bool {
        true
    }

    open spec fn eq_spec(&self, other: &Packing) -> bool {
        *self == *other
    }
}

impl Packing {
    /// Construct a new `Packing`.
    ///
    /// The six guesses are stored in canonical sorted order, however they
    /// are supplied, so that packing identity depends exclusively on
    /// membership and not on order.
    pub fn new(answer: LetterSet, guesses: [LetterSet; 6]) -> (p: Self)
        ensures
            p.answer == answer,
            ls_sorted(p.guesses@),
            p.guesses@.to_multiset() == guesses@.to_multiset(),
    {
        Self { answer, guesses: canonical_guess_order(guesses) }
    }

    /// Return the answer of the packing.
    pub fn answer(&self) -> (a: &LetterSet)
        ensures
            *a == self.answer,
    {
        &self.answer
    }

    /// Return the guesses of the packing.
    pub fn guesses(&self) -> (g: &[LetterSet; 6])
        ensures
            *g == self.guesses,
    {
        &self.guesses
    }

    /// Sort six lettersets from two triples into canonical order.
    pub fn sort(t1: [LetterSet; 3], t2: [LetterSet; 3]) -> (sorted: [LetterSet; 6])
        ensures
            ls_sorted(sorted@),
            sorted@.to_multiset() == (t1@ + t2@).to_multiset(),
    {
        let both = [t1[0], t1[1], t1[2], t2[0], t2[1], t2[2]];
        proof {
            assert(both@ =~= t1@ + t2@);
        }
        canonical_guess_order(both)
    }
}

/// Rearrange six guesses into canonical (nondecreasing mask) order.
fn canonical_guess_order(guesses: [LetterSet; 6]) -> (sorted: [LetterSet; 6])
    ensures
        ls_sorted(sorted@),
        sorted@.to_multiset() == guesses@.to_multiset(),
{
    let mut v: Vec<LetterSet> = Vec::new();
    v.push(guesses[0]);
    v.push(guesses[1]);
    v.push(guesses[2]);
    v.push(guesses[3]);
    v.push(guesses[4]);
    v.push(guesses[5]);
    proof {
        assert(v@ =~= guesses@);
    }
    let sorted_v = sort_lettersets(v);
    proof {
        assert(sorted_v@.len() == sorted_v@.to_multiset().len());
        assert(v@.len() == v@.to_multiset().len());
    }
    let sorted = [sorted_v[0], sorted_v[1], sorted_v[2], sorted_v[3], sorted_v[4], sorted_v[5]];
    proof {
        assert(sorted@ =~= sorted_v@);
    }
    sorted
}

/// Sort a vector of lettersets by mask value via insertion into a sorted
/// prefix; the result is a nondecreasing rearrangement of the input.
fn sort_lettersets(v: Vec<LetterSet>) -> (out: Vec<LetterSet>)
    ensures
        ls_sorted(out@),
        out@.to_multiset() == v@.to_multiset(),
{
    let mut out: Vec<LetterSet> = Vec::new();
    let mut i: usize = 0;
    proof {
        assert(v@.take(0) =~= Seq::<LetterSet>::empty());
        assert(out@ =~= Seq::<LetterSet>::empty());
    }
    while i < v.len()
        invariant
            i <= v@.len(),
            ls_sorted(out@),
            out@.to_multiset() == v@.take(i as int).to_multiset(),
        decreases v@.len() - i,
    {
        let x = v[i];
        insert_ls_sorted(&mut out, x);
        proof {
            assert(v@.take(i as int + 1).drop_last() =~= v@.take(i as int));
            assert(v@.take(i as int + 1) =~= v@.take(i as int).push(x));
        }
        i = i + 1;
    }
    proof {
        assert(v@.take(v@.len() as int) =~= v@);
    }
    out
}

/// Insert one letterset into a sorted vector, keeping it sorted.
fn insert_ls_sorted(out: &mut Vec<LetterSet>, x: LetterSet)
    requires
        ls_sorted(old(out)@),
    ensures
        ls_sorted(final(out)@),
        final(out)@.to_multiset() == old(out)@.to_multiset().insert(x),
{
    let mut pos: usize = 0;
    while pos < out.len() && out[pos].mask() <= x.mask()
        invariant
            pos <= out@.len(),
            ls_sorted(out@),
            out@ == old(out)@,
            forall|k: int| 0 <= k < pos ==> out@[k].mask() <= x.mask(),
        decreases out@.len() - pos,
    {
        pos = pos + 1;
    }
    let ghost pre = out@;
    out.insert(pos, x);
    proof {
        lemma_insert_to_multiset(pre, pos as int, x);
        pre.insert_ensures(pos as int, x);
        assert(ls_sorted(out@)) by {
            assert forall|a: int, b: int| 0 <= a < b < out@.len() implies out@[a].mask()
                <= out@[b].mask() by {
                if b < pos {
                    assert(out@[a] == pre[a] && out@[b] == pre[b]);
                } else if a < pos && b == pos {
                    assert(out@[a] == pre[a] && out@[b] == x);
                } else if a < pos && b > pos {
                    assert(out@[a] == pre[a] && out@[b] == pre[b - 1]);
                    assert(pre[pos as int].mask() > x.mask());
                } else if a == pos && b > pos {
                    assert(out@[a] == x && out@[b] == pre[b - 1]);
                    assert(pre[pos as int].mask() > x.mask());
                    assert(b - 1 >= pos);
                } else {
                    assert(out@[a] == pre[a - 1] && out@[b] == pre[b - 1]);
                }
            }
        }
    }
}

/// Convert lettersets to the signature representation the packer works on,
/// mask for mask.
fn lettersets_to_signatures(v: &Vec<LetterSet>) -> (sigs: Vec<Signature>)
    ensures
        sigs@.len() == v@.len(),
        forall|i: int| 0 <= i < v@.len() ==> (#[trigger] sigs@[i]).mask() == v@[i].mask(),
{
    let mut sigs: Vec<Signature> = Vec::new();
    let mut i: usize = 0;
    while i < v.len()
        invariant
            i <= v@.len(),
            sigs@.len() == i,
            forall|j: int| 0 <= j < i ==> (#[trigger] sigs@[j]).mask() == v@[j].mask(),
        decreases v@.len() - i,
    {
        sigs.push(Signature::from_mask(v[i].mask()));
        i = i + 1;
    }
    sigs
}

/// The signature-level twin of a letterset packing, built mask for mask.
spec fn signature_twin(fp: Packing) -> packer::Packing {
    let base = spec_array_fill_for_copy_type::<Signature, 6>(Signature::spec_from_mask(0));
    let g = spec_array_update(
        spec_array_update(
            spec_array_update(
                spec_array_update(
                    spec_array_update(
                        spec_array_update(
                            base,
                            0,
                            Signature::spec_from_mask(fp.guesses@[0].mask()),
                        ),
                        1,
                        Signature::spec_from_mask(fp.guesses@[1].mask()),
                    ),
                    2,
                    Signature::spec_from_mask(fp.guesses@[2].mask()),
                ),
                3,
                Signature::spec_from_mask(fp.guesses@[3].mask()),
            ),
            4,
            Signature::spec_from_mask(fp.guesses@[4].mask()),
        ),
        5,
        Signature::spec_from_mask(fp.guesses@[5].mask()),
    );
    packer::Packing { answer: Signature::spec_from_mask(fp.answer.mask()), guesses: g }
}

/// The twin carries the same masks.
proof fn lemma_signature_twin(fp: Packing)
    ensures
        corresponds(signature_twin(fp), fp),
{
    let pp = signature_twin(fp);
    assert(pp.guesses@.len() == 6);
    assert(pp.guesses@[0].mask() == fp.guesses@[0].mask());
    assert(pp.guesses@[1].mask() == fp.guesses@[1].mask());
    assert(pp.guesses@[2].mask() == fp.guesses@[2].mask());
    assert(pp.guesses@[3].mask() == fp.guesses@[3].mask());
    assert(pp.guesses@[4].mask() == fp.guesses@[4].mask());
    assert(pp.guesses@[5].mask() == fp.guesses@[5].mask());
}

/// Validity carries over between a signature packing and a letterset
/// packing with the same masks, against vocabularies with the same masks.
proof fn lemma_valid_corresponds(
    sa: Signature,
    la: LetterSet,
    sigs: Seq<Signature>,
    lss: Seq<LetterSet>,
    pp: packer::Packing,
    fp: Packing,
)
    requires
        sa.mask() == la.mask(),
        sigs.len() == lss.len(),
        forall|i: int| 0 <= i < lss.len() ==> (#[trigger] sigs[i]).mask() == lss[i].mask(),
        corresponds(pp, fp),
    ensures
        packer::valid_packing(sa, sigs, pp) <==> valid_ls_packing(la, lss, fp),
{
    if packer::valid_packing(sa, sigs, pp) {
        assert(fp.answer == la);
        assert forall|i: int| 0 <= i < 6 implies lss.contains(#[trigger] fp.guesses@[i]) by {
            assert(sigs.contains(pp.guesses@[i]));
            let j = choose|j: int| 0 <= j < sigs.len() && sigs[j] == pp.guesses@[i];
            assert(lss[j].mask() == pp.guesses@[i].mask());
            assert(lss[j] == fp.guesses@[i]);
        }
        assert forall|i: int| 0 <= i < 6 implies (#[trigger] fp.guesses@[i]).disjoint(
            fp.answer,
        ) by {
            assert(pp.guesses@[i].disjoint(pp.answer));
        }
        assert forall|i: int, j: int| 0 <= i < j < 6 implies (#[trigger] fp.guesses@[i]).disjoint(
            #[trigger] fp.guesses@[j],
        ) by {
            assert(pp.guesses@[i].disjoint(pp.guesses@[j]));
        }
        assert forall|i: int, j: int| 0 <= i < j < 6 implies (#[trigger] fp.guesses@[i]).mask()
            < (#[trigger] fp.guesses@[j]).mask() by {
            assert(pp.guesses@[i].mask() < pp.guesses@[j].mask());
        }
        assert(valid_ls_packing(la, lss, fp));
    }
    if valid_ls_packing(la, lss, fp) {
        assert(pp.answer == sa);
        assert forall|i: int| 0 <= i < 6 implies sigs.contains(#[trigger] pp.guesses@[i]) by {
            assert(lss.contains(fp.guesses@[i]));
            let j = choose|j: int| 0 <= j < lss.len() && lss[j] == fp.guesses@[i];
            assert(sigs[j].mask() == fp.guesses@[i].mask());
            assert(sigs[j] == pp.guesses@[i]);
        }
        assert forall|i: int| 0 <= i < 6 implies (#[trigger] pp.guesses@[i]).disjoint(
            pp.answer,
        ) by {
            assert(fp.guesses@[i].disjoint(fp.answer));
        }
        assert forall|i: int, j: int| 0 <= i < j < 6 implies (#[trigger] pp.guesses@[i]).disjoint(
            #[trigger] pp.guesses@[j],
        ) by {
            assert(fp.guesses@[i].disjoint(fp.guesses@[j]));
        }
        assert forall|i: int, j: int| 0 <= i < j < 6 implies (#[trigger] pp.guesses@[i]).mask()
            < (#[trigger] pp.guesses@[j]).mask() by {
            assert(fp.guesses@[i].mask() < fp.guesses@[j].mask());
        }
        assert(packer::valid_packing(sa, sigs, pp));
    }
}

/// Whether a vector of letterset packings holds the given one.
fn contains_ls_packing(v: &Vec<Packing>, x: &Packing) -> (r: bool)
    ensures
        r == v@.contains(*x),
{
    let mut n: usize = 0;
    while n < v.len()
        invariant
            n <= v@.len(),
            forall|m: int| 0 <= m < n ==> v@[m] != *x,
        decreases v@.len() - n,
    {
        if v[n] == *x {
            return true;
        }
        n = n + 1;
    }
    false
}

/// Appending a fresh packing keeps a list duplicate-free.
proof fn lemma_no_dup_push(s: Seq<Packing>, x: Packing)
    requires
        s.no_duplicates(),
        !s.contains(x),
    ensures
        s.push(x).no_duplicates(),
{
    assert forall|i: int, j: int| 0 <= i < j < s.push(x).len() implies s.push(x)[i] != s.push(
        x,
    )[j] by {
        if j == s.len() {
            if s.push(x)[i] == s.push(x)[j] {
                assert(s[i] == x);
                assert(s.contains(x));
            }
        }
    }
}

/// Append to `dst` every packing of `src` that it does not already hold:
/// the deduplicating set-union merge. The result stays duplicate-free and
/// holds exactly the packings of the two inputs.
fn merge_new_packings(dst: &mut Vec<Packing>, src: &Vec<Packing>)
    requires
        old(dst)@.no_duplicates(),
    ensures
        final(dst)@.no_duplicates(),
        forall|p: Packing|
            #[trigger] final(dst)@.contains(p) <==> (old(dst)@.contains(p) || src@.contains(p)),
{
    let mut k: usize = 0;
    proof {
        assert(src@.take(0) =~= Seq::<Packing>::empty());
    }
    while k < src.len()
        invariant
            k <= src@.len(),
            dst@.no_duplicates(),
            forall|p: Packing|
                #[trigger] dst@.contains(p) <==> (old(dst)@.contains(p) || src@.take(
                    k as int,
                ).contains(p)),
        decreases src@.len() - k,
    {
        let candidate = src[k];
        let ghost before = dst@;
        if !contains_ls_packing(dst, &candidate) {
            proof {
                lemma_no_dup_push(before, candidate);
            }
            dst.push(candidate);
        }
        proof {
            assert(src@.take(k as int + 1).drop_last() =~= src@.take(k as int));
            assert(src@.take(k as int + 1) =~= src@.take(k as int).push(candidate));
            assert forall|p: Packing|
                #[trigger] dst@.contains(p) <==> (old(dst)@.contains(p) || src@.take(
                    k as int + 1,
                ).contains(p)) by {
                if dst@.contains(p) {
                    let n = choose|n: int| 0 <= n < dst@.len() && dst@[n] == p;
                    if n < before.len() {
                        assert(before.contains(p));
                        if src@.take(k as int).contains(p) {
                            crate::seqs::lemma_push_contains(src@.take(k as int), candidate, p);
                        }
                    } else {
                        assert(p == candidate);
                        assert(src@.take(k as int + 1)[k as int] == candidate);
                    }
                }
                if old(dst)@.contains(p) {
                    assert(before.contains(p));
                    let m = choose|m: int| 0 <= m < before.len() && before[m] == p;
                    assert(dst@[m] == p);
                    assert(dst@.contains(p));
                }
                if src@.take(k as int + 1).contains(p) {
                    let n = choose|n: int|
                        0 <= n < k + 1 && #[trigger] src@.take(k as int + 1)[n] == p;
                    if n < k {
                        assert(src@.take(k as int)[n] == p);
                        assert(src@.take(k as int).contains(p));
                        assert(before.contains(p));
                        let m = choose|m: int| 0 <= m < before.len() && before[m] == p;
                        assert(dst@[m] == p);
                    } else {
                        assert(p == candidate);
                        if before.contains(candidate) {
                            let m = choose|m: int| 0 <= m < before.len() && before[m] == candidate;
                            assert(dst@[m] == candidate);
                        } else {
                            assert(dst@[dst@.len() - 1] == candidate);
                        }
                    }
                    assert(dst@.contains(p));
                }
            }
        }
        k = k + 1;
    }
    proof {
        assert(src@.take(src@.len() as int) =~= src@);
    }
}

/// Filters lettersets to identify all valid disjoint packings.
///
/// The `Filterer` solves the same core combinatorial problem as the
/// packer, over the raw letterset representation: finding all combinations
/// of one answer letterset and six guess lettersets where all seven are
/// pairwise disjoint. It runs the packer's three-stage search — triple
/// enumeration, partitioning by the most common letters, and
/// scan-and-merge over compatible partitions — on its lettersets' masks.
pub struct Filterer {
    /// All unique lettersets from answers.
    pub answer_sets: Vec<LetterSet>,
    /// All unique lettersets from guesses.
    pub guess_sets: Vec<LetterSet>,
}

impl Filterer {
    /// Both vocabularies are strictly sorted, without duplicates, and hold
    /// no empty letterset.
    pub open spec fn wf(self) -> bool {
        &&& ls_strictly_sorted(self.answer_sets@)
        &&& ls_strictly_sorted(self.guess_sets@)
        &&& forall|n: int|
            0 <= n < self.answer_sets@.len() ==> (#[trigger] self.answer_sets@[n]).mask() != 0
        &&& forall|n: int|
            0 <= n < self.guess_sets@.len() ==> (#[trigger] self.guess_sets@[n]).mask() != 0
    }

    /// Construct a new `Filterer` with the given answers and guesses,
    /// deduplicated and sorted.
    pub fn new(answers: &Vec<&str>, guesses: &Vec<&str>) -> (f: Filterer)
        requires
            wordlist_ok(answers@),
            wordlist_ok(guesses@),
        ensures
            f.wf(),
            forall|s: LetterSet|
                f.answer_sets@.contains(s) <==> mask_set(answers.deep_view()).contains(s.mask()),
            forall|s: LetterSet|
                f.guess_sets@.contains(s) <==> mask_set(guesses.deep_view()).contains(s.mask()),
    {
        let answer_sets = word_sets(answers);
        let guess_sets = word_sets(guesses);
        Filterer { answer_sets, guess_sets }
    }

    /// Find all possible packings of this particular answer + 6 guesses.
    pub fn find_packings_for_answer(&self, answer: LetterSet) -> (packings: Vec<Packing>)
        requires
            self.wf(),
        ensures
            packings@.no_duplicates(),
            forall|p: Packing|
                #[trigger] packings@.contains(p) <==> valid_ls_packing(
                    answer,
                    self.guess_sets@,
                    p,
                ),
    {
        let sigs = lettersets_to_signatures(&self.guess_sets);
        proof {
            assert(packer::sig_strictly_sorted(sigs@)) by {
                assert forall|i: int, j: int| 0 <= i < j < sigs@.len() implies sigs@[i].mask()
                    < sigs@[j].mask() by {
                    assert(self.guess_sets@[i].mask() < self.guess_sets@[j].mask());
                }
            }
            assert(forall|n: int|
                0 <= n < sigs@.len() ==> (#[trigger] sigs@[n]).mask() != 0);
        }
        let sig_answer = Signature::from_mask(answer.mask());
        let pp_list = packer::Packer::pack_for_answer(&sigs, sig_answer);
        let mut packings: Vec<Packing> = Vec::new();
        let mut k: usize = 0;
        while k < pp_list.len()
            invariant
                k <= pp_list@.len(),
                packings@.len() == k,
                forall|n: int|
                    0 <= n < k ==> corresponds(#[trigger] pp_list@[n], packings@[n]),
            decreases pp_list@.len() - k,
        {
            let pp = &pp_list[k];
            let gs = pp.guesses();
            let fp = Packing {
                answer: LetterSet::from_mask(pp.answer().mask()),
                guesses: [
                    LetterSet::from_mask(gs[0].mask()),
                    LetterSet::from_mask(gs[1].mask()),
                    LetterSet::from_mask(gs[2].mask()),
                    LetterSet::from_mask(gs[3].mask()),
                    LetterSet::from_mask(gs[4].mask()),
                    LetterSet::from_mask(gs[5].mask()),
                ],
            };
            packings.push(fp);
            proof {
                assert(packings@[packings@.len() - 1] == fp);
                assert(corresponds(pp_list@[k as int], fp)) by {
                    assert forall|i: int|
                        0 <= i < 6 implies pp_list@[k as int].guesses@[i].mask() == (
                    #[trigger] fp.guesses@[i]).mask() by {
                        assert(fp.guesses@[i] == LetterSet::spec_from_mask(
                            pp_list@[k as int].guesses@[i].mask(),
                        ));
                    }
                }
            }
            k = k + 1;
        }
        proof {
            assert forall|p: Packing|
                #[trigger] packings@.contains(p) <==> valid_ls_packing(
                    answer,
                    self.guess_sets@,
                    p,
                ) by {
                if packings@.contains(p) {
                    let n = choose|n: int| 0 <= n < packings@.len() && packings@[n] == p;
                    assert(corresponds(pp_list@[n], p));
                    assert(pp_list@.contains(pp_list@[n]));
                    assert(packer::valid_packing(sig_answer, sigs@, pp_list@[n]));
                    lemma_valid_corresponds(
                        sig_answer,
                        answer,
                        sigs@,
                        self.guess_sets@,
                        pp_list@[n],
                        p,
                    );
                }
                if valid_ls_packing(answer, self.guess_sets@, p) {
                    let pp = signature_twin(p);
                    lemma_signature_twin(p);
                    lemma_valid_corresponds(
                        sig_answer,
                        answer,
                        sigs@,
                        self.guess_sets@,
                        pp,
                        p,
                    );
                    assert(pp_list@.contains(pp));
                    let n = choose|n: int| 0 <= n < pp_list@.len() && pp_list@[n] == pp;
                    assert(corresponds(pp_list@[n], packings@[n]));
                    assert(packings@[n] == p) by {
                        assert(packings@[n].answer.mask() == p.answer.mask());
                        assert(packings@[n].answer == p.answer);
                        assert forall|i: int|
                            0 <= i < 6 implies (#[trigger] packings@[n].guesses@[i])
                            == p.guesses@[i] by {
                            assert(packings@[n].guesses@[i].mask() == pp.guesses@[i].mask());
                        }
                        assert(packings@[n].guesses =~= p.guesses);
                    }
                    assert(packings@.contains(p));
                }
            }
            assert(packings@.no_duplicates()) by {
                assert forall|a: int, b: int|
                    0 <= a < b < packings@.len() implies packings@[a] != packings@[b] by {
                    if packings@[a] == packings@[b] {
                        assert(corresponds(pp_list@[a], packings@[a]));
                        assert(corresponds(pp_list@[b], packings@[b]));
                        assert(pp_list@[a].answer.mask() == pp_list@[b].answer.mask());
                        assert(pp_list@[a].answer == pp_list@[b].answer);
                        assert forall|i: int|
                            0 <= i < 6 implies (#[trigger] pp_list@[a].guesses@[i])
                            == pp_list@[b].guesses@[i] by {
                            assert(pp_list@[a].guesses@[i].mask() == packings@[a].guesses@[
                                i
                            ].mask());
                            assert(pp_list@[b].guesses@[i].mask() == packings@[b].guesses@[
                                i
                            ].mask());
                        }
                        assert(pp_list@[a].guesses =~= pp_list@[b].guesses);
                        assert(pp_list@[a] == pp_list@[b]);
                    }
                }
            }
        }
        packings
    }

    /// Find all possible packings of answer + 6 guesses, one answer at a
    /// time, merging the per-answer results into one duplicate-free set.
    pub fn find_packings(&self) -> (packings: Vec<Packing>)
        requires
            self.wf(),
        ensures
            packings@.no_duplicates(),
            forall|p: Packing|
                #[trigger] packings@.contains(p) <==> exists|n: int|
                    0 <= n < self.answer_sets@.len() && #[trigger] valid_ls_packing(
                        self.answer_sets@[n],
                        self.guess_sets@,
                        p,
                    ),
    {
        let mut packings: Vec<Packing> = Vec::new();
        let mut i: usize = 0;
        while i < self.answer_sets.len()
            invariant
                self.wf(),
                i <= self.answer_sets@.len(),
                packings@.no_duplicates(),
                forall|p: Packing|
                    #[trigger] packings@.contains(p) <==> exists|n: int|
                        0 <= n < i && #[trigger] valid_ls_packing(
                            self.answer_sets@[n],
                            self.guess_sets@,
                            p,
                        ),
            decreases self.answer_sets@.len() - i,
        {
            let answer = self.answer_sets[i];
            let per_answer = self.find_packings_for_answer(answer);
            let ghost before_merge = packings@;
            merge_new_packings(&mut packings, &per_answer);
            proof {
                assert forall|p: Packing|
                    #[trigger] packings@.contains(p) <==> exists|n: int|
                        0 <= n < i + 1 && #[trigger] valid_ls_packing(
                            self.answer_sets@[n],
                            self.guess_sets@,
                            p,
                        ) by {
                    if packings@.contains(p) {
                        if per_answer@.contains(p) {
                            assert(valid_ls_packing(
                                self.answer_sets@[i as int],
                                self.guess_sets@,
                                p,
                            ));
                        } else {
                            assert(before_merge.contains(p));
                        }
                    } else {
                        if exists|n: int|
                            0 <= n < i + 1 && #[trigger] valid_ls_packing(
                                self.answer_sets@[n],
                                self.guess_sets@,
                                p,
                            ) {
                            let n = choose|n: int|
                                0 <= n < i + 1 && #[trigger] valid_ls_packing(
                                    self.answer_sets@[n],
                                    self.guess_sets@,
                                    p,
                                );
                            if n == i {
                                assert(per_answer@.contains(p));
                            } else {
                                assert(before_merge.contains(p));
                            }
                        }
                    }
                }
            }
            i = i + 1;
        }
        packings
    }
}

/// Convert one word list to its set of distinct lettersets, strictly
/// sorted by mask value.
fn word_sets(words: &Vec<&str>) -> (sets: Vec<LetterSet>)
    requires
        wordlist_ok(words@),
    ensures
        ls_strictly_sorted(sets@),
        forall|s: LetterSet| sets@.contains(s) <==> mask_set(words.deep_view()).contains(s.mask()),
        forall|n: int| 0 <= n < sets@.len() ==> (#[trigger] sets@[n]).mask() != 0,
{
    let sigs = crate::packer::signatures_of(words);
    let mut sets: Vec<LetterSet> = Vec::new();
    let mut i: usize = 0;
    while i < sigs.len()
        invariant
            i <= sigs@.len(),
            sets@.len() == i,
            forall|j: int| 0 <= j < i ==> (#[trigger] sets@[j]).mask() == sigs@[j].mask(),
        decreases sigs@.len() - i,
    {
        sets.push(LetterSet::from_mask(sigs[i].mask()));
        i = i + 1;
    }
    proof {
        assert(ls_strictly_sorted(sets@)) by {
            assert forall|a: int, b: int| 0 <= a < b < sets@.len() implies sets@[a].mask()
                < sets@[b].mask() by {
                assert(sigs@[a].mask() < sigs@[b].mask());
            }
        }
        assert forall|s: LetterSet|
            sets@.contains(s) <==> mask_set(words.deep_view()).contains(s.mask()) by {
            if sets@.contains(s) {
                let j = choose|j: int| 0 <= j < sets@.len() && sets@[j] == s;
                assert(sigs@[j].mask() == s.mask());
                assert(sigs@.contains(sigs@[j]));
            }
            if mask_set(words.deep_view()).contains(s.mask()) {
                let sig = Signature::spec_from_mask(s.mask());
                assert(sigs@.contains(sig));
                let j = choose|j: int| 0 <= j < sigs@.len() && sigs@[j] == sig;
                assert(sets@[j].mask() == s.mask());
                assert(sets@[j] == s);
                assert(sets@.contains(s));
            }
        }
        assert forall|n: int| 0 <= n < sets@.len() implies (#[trigger] sets@[n]).mask() != 0 by {
            assert(sigs@[n].mask() != 0);
        }
    }
    sets
}

} // verus!
