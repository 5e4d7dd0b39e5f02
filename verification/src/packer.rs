//! Find all disjoint packings of signatures.

use crate::letters::{lower_word, mask_set, word_mask};
use crate::seqs::lemma_insert_to_multiset;
use crate::signature::Signature;
use vstd::multiset::Multiset;
use vstd::prelude::*;
use vstd::relations::{sorted_by, total_ordering};
use vstd::seq_lib::lemma_sorted_unique;

verus! {

broadcast use vstd::array::group_array_axioms, vstd::seq_lib::group_to_multiset_ensures, vstd::multiset::group_multiset_axioms;

/// The fixed reference mask used to bin triples: the bitwise union of the
/// ten most frequent letters across the standard guess vocabulary,
/// "seaoriltnu". A corpus-level constant, not recomputed per answer.
pub const REFERENCE_MASK: u32 = 0b00000111100110100100010001;

/// Signatures ordered by their raw mask value, the order used for all
/// canonicalization.
pub open spec fn sig_leq() -> spec_fn(Signature, Signature) -> bool {
    |a: Signature, b: Signature| a.mask() <= b.mask()
}

/// Nondecreasing by mask value.
pub open spec fn sig_sorted(s: Seq<Signature>) -> bool {
    forall|i: int, j: int| 0 <= i < j < s.len() ==> s[i].mask() <= s[j].mask()
}

/// Strictly increasing by mask value; such a sequence holds no duplicates.
pub open spec fn sig_strictly_sorted(s: Seq<Signature>) -> bool {
    forall|i: int, j: int| 0 <= i < j < s.len() ==> s[i].mask() < s[j].mask()
}

/// The mask order is a total order on signatures.
pub proof fn lemma_sig_leq_total()
    ensures
        total_ordering(sig_leq()),
        forall|s: Seq<Signature>| sorted_by(s, sig_leq()) <==> #[trigger] sig_sorted(s),
{
    assert forall|s: Seq<Signature>| sorted_by(s, sig_leq()) <==> #[trigger] sig_sorted(s) by {
        if sorted_by(s, sig_leq()) {
            assert forall|i: int, j: int| 0 <= i < j < s.len() implies s[i].mask()
                <= s[j].mask() by {
                assert(sig_leq()(s[i], s[j]));
            }
        }
    }
}

/// All 21 disjointness conditions a packing stands for: the answer against
/// each guess, and every pair of guesses against each other.
pub open spec fn packing_disjoint(p: Packing) -> bool {
    &&& forall|i: int| 0 <= i < 6 ==> p.guesses@[i].disjoint(p.answer)
    &&& forall|i: int, j: int| 0 <= i < j < 6 ==> p.guesses@[i].disjoint(p.guesses@[j])
}

/// What the packer owes for one answer: `p` is a packing the search must
/// emit, for answer `answer` over the guess vocabulary `gs`, exactly when
/// its guesses are drawn from `gs`, everything is pairwise disjoint, and the
/// guesses are held in canonical (strictly increasing) order.
pub open spec fn valid_packing(answer: Signature, gs: Seq<Signature>, p: Packing) -> bool {
    &&& p.answer == answer
    &&& forall|i: int| 0 <= i < 6 ==> gs.contains(p.guesses@[i])
    &&& packing_disjoint(p)
    &&& sig_strictly_sorted(p.guesses@)
}

/// Every packing the search emits passes all 21 pairwise disjointness
/// checks among its answer and six guesses.
pub proof fn lemma_emitted_packing_disjoint(answer: Signature, gs: Seq<Signature>, p: Packing)
    requires
        valid_packing(answer, gs, p),
    ensures
        packing_disjoint(p),
{
}

/// The masks of a packing's seven signatures, answer first.
pub open spec fn packing_masks(p: Packing) -> Seq<u32> {
    seq![p.answer.mask()] + Seq::new(6, |i: int| p.guesses@[i].mask())
}

/// The equivalent form of the packing invariant: the sum of the seven
/// individual letter counts equals the letter count of their union.
pub proof fn lemma_packing_counts_add(p: Packing)
    requires
        packing_disjoint(p),
    ensures
        crate::letters::ones(crate::letters::or_all(packing_masks(p)))
            == crate::letters::ones_sum(packing_masks(p)),
{
    let ms = packing_masks(p);
    assert forall|a: int, b: int| 0 <= a < b < ms.len() implies #[trigger] ms[a] & #[trigger] ms[b]
        == 0 by {
        if a == 0 {
            assert(ms[b] == p.guesses@[b - 1].mask());
            assert(p.guesses@[b - 1].disjoint(p.answer));
            let g = p.guesses@[b - 1].mask();
            let am = p.answer.mask();
            assert(g & am == 0 ==> am & g == 0) by (bit_vector);
        } else {
            assert(ms[a] == p.guesses@[a - 1].mask());
            assert(ms[b] == p.guesses@[b - 1].mask());
            assert(p.guesses@[a - 1].disjoint(p.guesses@[b - 1]));
        }
    }
    crate::letters::lemma_disjoint_masks_count(ms);
}

/// The final packing set is a pure function of the vocabularies: any two
/// results that meet the packer's contract hold exactly the same packings,
/// whatever task schedule or merge order produced them.
pub proof fn lemma_pack_order_independent(
    answers: Seq<Seq<char>>,
    guesses: Seq<Seq<char>>,
    r1: Seq<Packing>,
    r2: Seq<Packing>,
)
    requires
        forall|p: Packing|
            #[trigger] r1.contains(p) <==> valid_packing_for_words(answers, guesses, p),
        forall|p: Packing|
            #[trigger] r2.contains(p) <==> valid_packing_for_words(answers, guesses, p),
    ensures
        forall|p: Packing| #[trigger] r1.contains(p) <==> r2.contains(p),
{
}

/// A disjoint packing of one answer and six guess signatures.
#[derive(Clone, Copy, Hash, Debug)]
pub struct Packing {
    pub answer: Signature,
    pub guesses: [Signature; 6],
}

impl PartialEq for Packing {
    fn eq(&self, other: &Packing) -> (r: bool) {
        let fields_eq = self.answer == other.answer && self.guesses[0] == other.guesses[0]
            && self.guesses[1] == other.guesses[1] && self.guesses[2] == other.guesses[2]
            && self.guesses[3] == other.guesses[3] && self.guesses[4] == other.guesses[4]
            && self.guesses[5] == other.guesses[5];
        proof {
            if fields_eq {
                assert(self.guesses =~= other.guesses);
            }
        }
        fields_eq
    }
}

impl Eq for Packing {

}

impl vstd::std_specs::cmp::PartialEqSpecImpl for Packing {
    open spec fn obeys_eq_spec() -> bool {
        true
    }

    open spec fn eq_spec(&self, other: &Packing) -> bool {
        *self == *other
    }
}

impl Packing {
    /// Construct a new `Packing`.
    ///
    /// The six guesses are stored in canonical sorted order, however they
    /// are supplied, so that packing identity depends exclusively on
    /// membership: two constructions from any two rearrangements of the
    /// same guesses yield one and the same value.
    pub fn new(answer: Signature, guesses: [Signature; 6]) -> (p: Self)
        ensures
            p.answer == answer,
            sig_sorted(p.guesses@),
            p.guesses@.to_multiset() == guesses@.to_multiset(),
    {
        Self { answer, guesses: canonical_guess_order(guesses) }
    }

    /// Return the answer signature.
    pub fn answer(&self) -> (a: &Signature)
        ensures
            *a == self.answer,
    {
        &self.answer
    }

    /// Return the guess signatures.
    pub fn guesses(&self) -> (g: &[Signature; 6])
        ensures
            *g == self.guesses,
    {
        &self.guesses
    }

    /// Sort six signatures from two triples into canonical order.
    pub fn sort(t1: [Signature; 3], t2: [Signature; 3]) -> (sorted: [Signature; 6])
        ensures
            sig_sorted(sorted@),
            sorted@.to_multiset() == (t1@ + t2@).to_multiset(),
    {
        let both = [t1[0], t1[1], t1[2], t2[0], t2[1], t2[2]];
        proof {
            assert(both@ =~= t1@ + t2@);
        }
        canonical_guess_order(both)
    }
}

/// Rearrange six guesses into canonical (nondecreasing mask) order.
fn canonical_guess_order(guesses: [Signature; 6]) -> (sorted: [Signature; 6])
    ensures
        sig_sorted(sorted@),
        sorted@.to_multiset() == guesses@.to_multiset(),
{
    let mut v: Vec<Signature> = Vec::new();
    v.push(guesses[0]);
    v.push(guesses[1]);
    v.push(guesses[2]);
    v.push(guesses[3]);
    v.push(guesses[4]);
    v.push(guesses[5]);
    proof {
        assert(v@ =~= guesses@);
    }
    let sorted_v = sort_signatures(v);
    proof {
        assert(sorted_v@.len() == sorted_v@.to_multiset().len());
        assert(v@.len() == v@.to_multiset().len());
    }
    let sorted = [sorted_v[0], sorted_v[1], sorted_v[2], sorted_v[3], sorted_v[4], sorted_v[5]];
    proof {
        assert(sorted@ =~= sorted_v@);
    }
    sorted
}

/// Canonical order makes packing identity independent of discovery order:
/// two packings with the same answer whose guess lists are sorted and hold
/// the same multiset of signatures are one and the same value.
pub proof fn lemma_packing_canonical(p1: Packing, p2: Packing)
    requires
        p1.answer == p2.answer,
        sig_sorted(p1.guesses@),
        sig_sorted(p2.guesses@),
        p1.guesses@.to_multiset() == p2.guesses@.to_multiset(),
    ensures
        p1 == p2,
{
    lemma_sig_leq_total();
    lemma_sorted_unique(p1.guesses@, p2.guesses@, sig_leq());
    assert(p1.guesses =~= p2.guesses);
}

/// Sort a vector of signatures by mask value via insertion into a sorted
/// prefix; the result is a nondecreasing rearrangement of the input.
fn sort_signatures(v: Vec<Signature>) -> (out: Vec<Signature>)
    ensures
        sig_sorted(out@),
        out@.to_multiset() == v@.to_multiset(),
{
    let mut out: Vec<Signature> = Vec::new();
    let mut i: usize = 0;
    proof {
        assert(v@.take(0) =~= Seq::<Signature>::empty());
        assert(out@ =~= Seq::<Signature>::empty());
    }
    while i < v.len()
        invariant
            i <= v@.len(),
            sig_sorted(out@),
            out@.to_multiset() == v@.take(i as int).to_multiset(),
        decreases v@.len() - i,
    {
        let x = v[i];
        insert_sorted(&mut out, x);
        proof {
            assert(v@.take(i as int + 1).drop_last() =~= v@.take(i as int));
            assert(v@.take(i as int + 1) =~= v@.take(i as int).push(x));
        }
        i = i + 1;
    }
    proof {
        assert(v@.take(v@.len() as int) =~= v@);
    }
    out
}

/// A triple of disjoint signatures.
///
/// The `Triple` has a mask that represents the union of its signatures. This
/// allows for fast disjointness checks between whole triples.
#[derive(Clone, Copy, Debug)]
struct Triple {
    signatures: [Signature; 3],
    mask: Signature,
}

impl Triple {
    /// The invariant every enumerated triple satisfies: the mask is the
    /// union of the three signatures, which are pairwise disjoint and held
    /// in strictly increasing order.
    spec fn wf(self) -> bool {
        &&& self.mask == self.signatures@[0].spec_union(self.signatures@[1]).spec_union(
            self.signatures@[2],
        )
        &&& self.signatures@[0].disjoint(self.signatures@[1])
        &&& self.signatures@[0].disjoint(self.signatures@[2])
        &&& self.signatures@[1].disjoint(self.signatures@[2])
        &&& self.signatures@[0].mask() < self.signatures@[1].mask()
        &&& self.signatures@[1].mask() < self.signatures@[2].mask()
    }

    /// Construct a new `Triple` with the given signatures.
    fn new(ls1: Signature, ls2: Signature, ls3: Signature) -> (t: Self)
        ensures
            t.signatures@ == seq![ls1, ls2, ls3],
            t.mask == ls1.spec_union(ls2).spec_union(ls3),
    {
        let signatures = [ls1, ls2, ls3];
        let mask = ls1.union(ls2).union(ls3);
        proof {
            assert(signatures@ =~= seq![ls1, ls2, ls3]);
        }
        Self { signatures, mask }
    }

    /// Check if two triples are disjoint.
    fn disjoint(self, other: Self) -> (r: bool)
        ensures
            r == self.mask.disjoint(other.mask),
    {
        self.mask.disjoint(other.mask)
    }
}

/// Whether the list of triples holds the value triple `(x, y, z)`.
spec fn has_triple(ts: Seq<Triple>, x: Signature, y: Signature, z: Signature) -> bool {
    exists|n: int| 0 <= n < ts.len() && ts[n].signatures@ == seq![x, y, z]
}

/// A triple the list holds stays in it when another triple is appended.
proof fn lemma_has_triple_push(ts: Seq<Triple>, t: Triple, x: Signature, y: Signature, z: Signature)
    requires
        has_triple(ts, x, y, z),
    ensures
        has_triple(ts.push(t), x, y, z),
{
    let n = choose|n: int| 0 <= n < ts.len() && ts[n].signatures@ == seq![x, y, z];
    assert(ts.push(t)[n] == ts[n]);
}

/// The signature list of the candidate triple at positions `(a, b, c)`.
spec fn trip_at(cands: Seq<Signature>, a: int, b: int, c: int) -> Seq<Signature> {
    seq![cands[a], cands[b], cands[c]]
}

/// The triple was recorded at some candidate position lexicographically
/// before `(i, j, k)`. The enumeration visits each position exactly once,
/// so this is what keeps the record free of duplicates.
spec fn from_earlier_position(
    t: Triple,
    cands: Seq<Signature>,
    i: int,
    j: int,
    k: int,
) -> bool {
    exists|a: int, b: int, c: int|
        0 <= a < b && b < c < cands.len() && #[trigger] trip_at(cands, a, b, c)
            == t.signatures@ && (a < i || (a == i && b < j) || (a == i && b == j && c < k))
}

/// All recorded triples come from positions before `(i, j, k)`.
spec fn triples_positioned(
    ts: Seq<Triple>,
    cands: Seq<Signature>,
    i: int,
    j: int,
    k: int,
) -> bool {
    forall|n: int|
        0 <= n < ts.len() ==> from_earlier_position(#[trigger] ts[n], cands, i, j, k)
}

/// Position bounds weaken as the enumeration advances.
proof fn lemma_positioned_monotone(
    ts: Seq<Triple>,
    cands: Seq<Signature>,
    i1: int,
    j1: int,
    k1: int,
    i2: int,
    j2: int,
    k2: int,
)
    requires
        triples_positioned(ts, cands, i1, j1, k1),
        i1 < i2 || (i1 == i2 && j1 < j2) || (i1 == i2 && j1 == j2 && k1 <= k2),
    ensures
        triples_positioned(ts, cands, i2, j2, k2),
{
    assert forall|n: int| 0 <= n < ts.len() implies from_earlier_position(
        #[trigger] ts[n],
        cands,
        i2,
        j2,
        k2,
    ) by {
        let (a, b, c) = choose|a: int, b: int, c: int|
            0 <= a < b && b < c < cands.len() && #[trigger] trip_at(cands, a, b, c)
                == ts[n].signatures@ && (a < i1 || (a == i1 && b < j1) || (a == i1 && b == j1
                && c < k1));
        assert(trip_at(cands, a, b, c) == ts[n].signatures@);
        assert(a < i2 || (a == i2 && b < j2) || (a == i2 && b == j2 && c < k2));
    }
}

/// Appending a fresh triple keeps a list duplicate-free.
proof fn lemma_triples_no_dup_push(s: Seq<Triple>, x: Triple)
    requires
        s.no_duplicates(),
        !s.contains(x),
    ensures
        s.push(x).no_duplicates(),
{
    assert forall|i: int, j: int| 0 <= i < j < s.push(x).len() implies s.push(x)[i] != s.push(
        x,
    )[j] by {
        if j == s.len() {
            if s.push(x)[i] == s.push(x)[j] {
                assert(s[i] == x);
                assert(s.contains(x));
            }
        }
    }
}

/// The three candidates at positions `a`, `b`, `c` are pairwise disjoint.
spec fn idx_ok(cands: Seq<Signature>, a: int, b: int, c: int) -> bool {
    &&& cands[a].disjoint(cands[b])
    &&& cands[a].disjoint(cands[c])
    &&& cands[b].disjoint(cands[c])
}

/// Everything the enumeration holds is a well-formed triple of candidates.
spec fn triples_sound(ts: Seq<Triple>, cands: Seq<Signature>) -> bool {
    forall|n: int|
        0 <= n < ts.len() ==> (#[trigger] ts[n]).wf() && cands.contains(ts[n].signatures@[0])
            && cands.contains(ts[n].signatures@[1]) && cands.contains(ts[n].signatures@[2])
}

/// Every pairwise disjoint index triple whose first position lies below `i`
/// has been recorded.
spec fn triples_complete_upto(ts: Seq<Triple>, cands: Seq<Signature>, i: int) -> bool {
    forall|a: int, b: int, c: int|
        0 <= a < b && b < c < cands.len() && a < i && #[trigger] idx_ok(cands, a, b, c)
            ==> has_triple(ts, cands[a], cands[b], cands[c])
}

/// Every pairwise disjoint index triple starting at `i` whose second
/// position lies below `j` has been recorded.
spec fn triples_complete_mid(ts: Seq<Triple>, cands: Seq<Signature>, i: int, j: int) -> bool {
    forall|b: int, c: int|
        i < b && b < c < cands.len() && b < j && #[trigger] idx_ok(cands, i, b, c)
            ==> has_triple(ts, cands[i], cands[b], cands[c])
}

/// Every pairwise disjoint index triple starting at `(i, j)` whose third
/// position lies below `k` has been recorded.
spec fn triples_complete_inner(
    ts: Seq<Triple>,
    cands: Seq<Signature>,
    i: int,
    j: int,
    k: int,
) -> bool {
    forall|c: int|
        j < c < k && #[trigger] idx_ok(cands, i, j, c) ==> has_triple(
            ts,
            cands[i],
            cands[j],
            cands[c],
        )
}

/// Find all disjoint triples compatible with the given answer.
///
/// The result holds exactly once each strictly increasing, pairwise
/// disjoint triple of guess signatures that also avoids the answer's
/// letters, and nothing else; all triples are unique and well-formed by
/// construction.
fn find_triples_for_answer(answer: Signature, guess_signatures: &Vec<Signature>) -> (triples: Vec<
    Triple,
>)
    requires
        sig_strictly_sorted(guess_signatures@),
    ensures
        triples@.no_duplicates(),
        forall|n: int| 0 <= n < triples@.len() ==> (#[trigger] triples@[n]).wf(),
        forall|n: int, q: int|
            0 <= n < triples@.len() && 0 <= q < 3 ==> guess_signatures@.contains(
                #[trigger] triples@[n].signatures@[q],
            ) && triples@[n].signatures@[q].disjoint(answer),
        forall|x: Signature, y: Signature, z: Signature|
            #![trigger guess_signatures@.contains(x), guess_signatures@.contains(y), guess_signatures@.contains(z)]
            (guess_signatures@.contains(x) && guess_signatures@.contains(y)
                && guess_signatures@.contains(z) && x.disjoint(answer) && y.disjoint(answer)
                && z.disjoint(answer) && x.mask() < y.mask() && y.mask() < z.mask() && x.disjoint(
                y,
            ) && x.disjoint(z) && y.disjoint(z)) ==> has_triple(triples@, x, y, z),
{
    let cands = filter_candidates(answer, guess_signatures);
    let mut triples: Vec<Triple> = Vec::new();
    let mut i: usize = 0;
    while i < cands.len()
        invariant
            i <= cands@.len(),
            sig_strictly_sorted(cands@),
            forall|s: Signature|
                #[trigger] cands@.contains(s) <==> guess_signatures@.contains(s) && s.disjoint(
                    answer,
                ),
            triples@.no_duplicates(),
            triples_positioned(triples@, cands@, i as int, 0, 0),
            triples_sound(triples@, cands@),
            triples_complete_upto(triples@, cands@, i as int),
        decreases cands@.len() - i,
    {
        let x = cands[i];
        let mut j = i + 1;
        proof {
            lemma_positioned_monotone(
                triples@,
                cands@,
                i as int,
                0,
                0,
                i as int,
                i as int + 1,
                0,
            );
        }
        while j < cands.len()
            invariant
                i < j <= cands@.len(),
                i < cands@.len(),
                x == cands@[i as int],
                sig_strictly_sorted(cands@),
                forall|s: Signature|
                    #[trigger] cands@.contains(s) <==> guess_signatures@.contains(s) && s.disjoint(
                        answer,
                    ),
                triples@.no_duplicates(),
                triples_positioned(triples@, cands@, i as int, j as int, 0),
                triples_sound(triples@, cands@),
                triples_complete_upto(triples@, cands@, i as int),
                triples_complete_mid(triples@, cands@, i as int, j as int),
            decreases cands@.len() - j,
        {
            let y = cands[j];
            if x.disjoint(y) {
                let u = x.union(y);
                let mut k = j + 1;
                proof {
                    lemma_positioned_monotone(
                        triples@,
                        cands@,
                        i as int,
                        j as int,
                        0,
                        i as int,
                        j as int,
                        j as int + 1,
                    );
                }
                while k < cands.len()
                    invariant
                        i < j < k <= cands@.len(),
                        j < cands@.len(),
                        x == cands@[i as int],
                        y == cands@[j as int],
                        x.disjoint(y),
                        u == x.spec_union(y),
                        sig_strictly_sorted(cands@),
                        forall|s: Signature|
                            #[trigger] cands@.contains(s) <==> guess_signatures@.contains(s)
                                && s.disjoint(answer),
                        triples@.no_duplicates(),
                        triples_positioned(triples@, cands@, i as int, j as int, k as int),
                        triples_sound(triples@, cands@),
                        triples_complete_upto(triples@, cands@, i as int),
                        triples_complete_mid(triples@, cands@, i as int, j as int),
                        triples_complete_inner(
                            triples@,
                            cands@,
                            i as int,
                            j as int,
                            k as int,
                        ),
                    decreases cands@.len() - k,
                {
                    let z = cands[k];
                    proof {
                        lemma_union_disjoint(x.mask(), y.mask(), z.mask());
                    }
                    if u.disjoint(z) {
                        let ghost before = triples@;
                        let t = Triple::new(x, y, z);
                        triples.push(t);
                        proof {
                            assert(triples@[triples@.len() - 1] == t);
                            assert(t.signatures@[0] == x && t.signatures@[1] == y
                                && t.signatures@[2] == z);
                            assert(t.wf());
                            assert(t.signatures@ == trip_at(
                                cands@,
                                i as int,
                                j as int,
                                k as int,
                            )) by {
                                assert(trip_at(cands@, i as int, j as int, k as int) =~= seq![
                                    x,
                                    y,
                                    z,
                                ]);
                            }
                            assert forall|n: int| 0 <= n < before.len() implies before[n]
                                != t by {
                                let (a, b, c) = choose|a: int, b: int, c: int|
                                    0 <= a < b && b < c < cands@.len() && #[trigger] trip_at(
                                        cands@,
                                        a,
                                        b,
                                        c,
                                    ) == before[n].signatures@ && (a < i as int || (a == i as int
                                        && b < j as int) || (a == i as int && b == j as int && c
                                        < k as int));
                                if before[n] == t {
                                    assert(trip_at(cands@, a, b, c) == trip_at(
                                        cands@,
                                        i as int,
                                        j as int,
                                        k as int,
                                    ));
                                    assert(cands@[a] == cands@[i as int]);
                                    assert(cands@[b] == cands@[j as int]);
                                    assert(cands@[c] == cands@[k as int]);
                                    assert(a == i as int) by {
                                        if a < i as int {
                                            assert(cands@[a].mask() < cands@[i as int].mask());
                                        } else if a > i as int {
                                            assert(cands@[i as int].mask() < cands@[a].mask());
                                        }
                                    }
                                    assert(b == j as int) by {
                                        if b < j as int {
                                            assert(cands@[b].mask() < cands@[j as int].mask());
                                        } else if b > j as int {
                                            assert(cands@[j as int].mask() < cands@[b].mask());
                                        }
                                    }
                                    assert(c == k as int) by {
                                        if c < k as int {
                                            assert(cands@[c].mask() < cands@[k as int].mask());
                                        } else if c > k as int {
                                            assert(cands@[k as int].mask() < cands@[c].mask());
                                        }
                                    }
                                    assert(false);
                                }
                            }
                            assert(!before.contains(t)) by {
                                if before.contains(t) {
                                    let n = choose|n: int|
                                        0 <= n < before.len() && before[n] == t;
                                }
                            }
                            lemma_triples_no_dup_push(before, t);
                            assert(triples@ =~= before.push(t));
                            assert(triples@.no_duplicates());
                            assert(triples_positioned(
                                triples@,
                                cands@,
                                i as int,
                                j as int,
                                k as int + 1,
                            )) by {
                                assert forall|n: int|
                                    0 <= n < triples@.len() implies from_earlier_position(
                                    #[trigger] triples@[n],
                                    cands@,
                                    i as int,
                                    j as int,
                                    k as int + 1,
                                ) by {
                                    if n < before.len() {
                                        assert(triples@[n] == before[n]);
                                        let (a, b, c) = choose|a: int, b: int, c: int|
                                            0 <= a < b && b < c < cands@.len()
                                                && #[trigger] trip_at(cands@, a, b, c)
                                                == before[n].signatures@ && (a < i as int || (a
                                                == i as int && b < j as int) || (a == i as int
                                                && b == j as int && c < k as int));
                                        assert(trip_at(cands@, a, b, c)
                                            == triples@[n].signatures@);
                                    } else {
                                        assert(triples@[n] == t);
                                        assert(trip_at(cands@, i as int, j as int, k as int)
                                            == t.signatures@);
                                    }
                                }
                            }
                            assert(has_triple(triples@, x, y, z));
                            assert(cands@.contains(x) && cands@.contains(y) && cands@.contains(
                                z,
                            ));
                            assert(triples_sound(triples@, cands@)) by {
                                assert forall|n: int|
                                    0 <= n < triples@.len() implies (#[trigger] triples@[n]).wf()
                                    && cands@.contains(triples@[n].signatures@[0])
                                    && cands@.contains(triples@[n].signatures@[1])
                                    && cands@.contains(triples@[n].signatures@[2]) by {
                                    if n < before.len() {
                                        assert(triples@[n] == before[n]);
                                    } else {
                                        assert(triples@[n] == t);
                                    }
                                }
                            }
                            assert(triples_complete_upto(triples@, cands@, i as int)) by {
                                assert forall|a: int, b: int, c: int|
                                    0 <= a < b && b < c < cands@.len() && a < i as int
                                        && #[trigger] idx_ok(cands@, a, b, c) implies has_triple(
                                    triples@,
                                    cands@[a],
                                    cands@[b],
                                    cands@[c],
                                ) by {
                                    lemma_has_triple_push(
                                        before,
                                        t,
                                        cands@[a],
                                        cands@[b],
                                        cands@[c],
                                    );
                                }
                            }
                            assert(triples_complete_mid(triples@, cands@, i as int, j as int))
                                by {
                                assert forall|b: int, c: int|
                                    (i as int) < b && b < c < cands@.len() && b < j as int
                                        && #[trigger] idx_ok(cands@, i as int, b, c) implies
                                    has_triple(
                                    triples@,
                                    cands@[i as int],
                                    cands@[b],
                                    cands@[c],
                                ) by {
                                    lemma_has_triple_push(
                                        before,
                                        t,
                                        cands@[i as int],
                                        cands@[b],
                                        cands@[c],
                                    );
                                }
                            }
                            assert(triples_complete_inner(
                                triples@,
                                cands@,
                                i as int,
                                j as int,
                                k as int + 1,
                            )) by {
                                assert forall|c: int|
                                    (j as int) < c < k as int + 1 && #[trigger] idx_ok(
                                        cands@,
                                        i as int,
                                        j as int,
                                        c,
                                    ) implies has_triple(
                                    triples@,
                                    cands@[i as int],
                                    cands@[j as int],
                                    cands@[c],
                                ) by {
                                    if c < k as int {
                                        lemma_has_triple_push(
                                            before,
                                            t,
                                            cands@[i as int],
                                            cands@[j as int],
                                            cands@[c],
                                        );
                                    } else {
                                        assert(cands@[c] == z);
                                        assert(has_triple(triples@, x, y, z));
                                    }
                                }
                            }
                        }
                    } else {
                        proof {
                            assert(!idx_ok(cands@, i as int, j as int, k as int));
                            lemma_positioned_monotone(
                                triples@,
                                cands@,
                                i as int,
                                j as int,
                                k as int,
                                i as int,
                                j as int,
                                k as int + 1,
                            );
                        }
                    }
                    k = k + 1;
                }
                proof {
                    lemma_positioned_monotone(
                        triples@,
                        cands@,
                        i as int,
                        j as int,
                        k as int,
                        i as int,
                        j as int + 1,
                        0,
                    );
                    assert(triples_complete_mid(triples@, cands@, i as int, j as int + 1)) by {
                        assert forall|b: int, c: int|
                            (i as int) < b && b < c < cands@.len() && b < j as int + 1
                                && #[trigger] idx_ok(cands@, i as int, b, c) implies has_triple(
                            triples@,
                            cands@[i as int],
                            cands@[b],
                            cands@[c],
                        ) by {
                            if b == j as int {
                                assert(triples_complete_inner(
                                    triples@,
                                    cands@,
                                    i as int,
                                    j as int,
                                    cands@.len() as int,
                                ));
                            }
                        }
                    }
                }
            } else {
                proof {
                    lemma_positioned_monotone(
                        triples@,
                        cands@,
                        i as int,
                        j as int,
                        0,
                        i as int,
                        j as int + 1,
                        0,
                    );
                    assert forall|c: int|
                        (j as int) < c < cands@.len() && #[trigger] idx_ok(
                            cands@,
                            i as int,
                            j as int,
                            c,
                        ) implies has_triple(triples@, cands@[i as int], cands@[j as int], cands@[c])
                        by {
                        assert(cands@[i as int].disjoint(cands@[j as int]));
                        assert(false);
                    }
                }
            }
            j = j + 1;
        }
        proof {
            lemma_positioned_monotone(
                triples@,
                cands@,
                i as int,
                j as int,
                0,
                i as int + 1,
                0,
                0,
            );
            assert(triples_complete_upto(triples@, cands@, i as int + 1)) by {
                assert forall|a: int, b: int, c: int|
                    0 <= a < b && b < c < cands@.len() && a < i as int + 1 && #[trigger] idx_ok(
                        cands@,
                        a,
                        b,
                        c,
                    ) implies has_triple(triples@, cands@[a], cands@[b], cands@[c]) by {
                    if a == i as int {
                        assert(triples_complete_mid(
                            triples@,
                            cands@,
                            i as int,
                            cands@.len() as int,
                        ));
                    }
                }
            }
        }
        i = i + 1;
    }
    proof {
        assert forall|n: int, q: int|
            0 <= n < triples@.len() && 0 <= q < 3 implies guess_signatures@.contains(
            #[trigger] triples@[n].signatures@[q],
        ) && triples@[n].signatures@[q].disjoint(answer) by {
            assert(cands@.contains(triples@[n].signatures@[0]));
            assert(cands@.contains(triples@[n].signatures@[1]));
            assert(cands@.contains(triples@[n].signatures@[2]));
        }
        assert forall|x: Signature, y: Signature, z: Signature|
            #![trigger guess_signatures@.contains(x), guess_signatures@.contains(y), guess_signatures@.contains(z)]
            (guess_signatures@.contains(x) && guess_signatures@.contains(y)
                && guess_signatures@.contains(z) && x.disjoint(answer) && y.disjoint(answer)
                && z.disjoint(answer) && x.mask() < y.mask() && y.mask() < z.mask() && x.disjoint(
                y,
            ) && x.disjoint(z) && y.disjoint(z)) implies has_triple(triples@, x, y, z) by {
            assert(cands@.contains(x) && cands@.contains(y) && cands@.contains(z));
            let a = choose|a: int| 0 <= a < cands@.len() && cands@[a] == x;
            let b = choose|b: int| 0 <= b < cands@.len() && cands@[b] == y;
            let c = choose|c: int| 0 <= c < cands@.len() && cands@[c] == z;
            assert(a < b) by {
                if b < a {
                    assert(cands@[b].mask() < cands@[a].mask());
                }
            }
            assert(b < c) by {
                if c < b {
                    assert(cands@[c].mask() < cands@[b].mask());
                }
            }
            assert(idx_ok(cands@, a, b, c));
            assert(triples_complete_upto(triples@, cands@, cands@.len() as int));
        }
    }
    triples
}

/// A mask is disjoint from a union exactly when it is disjoint from both
/// parts.
proof fn lemma_union_disjoint(x: u32, y: u32, z: u32)
    ensures
        ((x | y) & z == 0) <==> (x & z == 0 && y & z == 0),
{
    assert(((x | y) & z == 0) <==> (x & z == 0 && y & z == 0)) by (bit_vector);
}

/// Whether a vector of signatures holds the given one.
fn contains_sig(v: &Vec<Signature>, x: Signature) -> (r: bool)
    ensures
        r == v@.contains(x),
{
    let mut n: usize = 0;
    while n < v.len()
        invariant
            n <= v@.len(),
            forall|m: int| 0 <= m < n ==> v@[m] != x,
        decreases v@.len() - n,
    {
        if v[n] == x {
            return true;
        }
        n = n + 1;
    }
    false
}

/// Whether a vector of packings holds the given one.
fn contains_packing(v: &Vec<Packing>, x: &Packing) -> (r: bool)
    ensures
        r == v@.contains(*x),
{
    let mut n: usize = 0;
    while n < v.len()
        invariant
            n <= v@.len(),
            forall|m: int| 0 <= m < n ==> v@[m] != *x,
        decreases v@.len() - n,
    {
        if v[n] == *x {
            return true;
        }
        n = n + 1;
    }
    false
}

/// Whether some bin of the partition holds the triple `t`.
spec fn in_bins(bins: Seq<(Signature, Vec<Triple>)>, t: Triple) -> bool {
    exists|p: int| 0 <= p < bins.len() && #[trigger] bins[p].1@.contains(t)
}

/// Append to `dst` every packing of `src` that it does not already hold:
/// the deduplicating set-union merge shared by all searches. The result
/// stays duplicate-free and holds exactly the packings of the two inputs.
fn merge_new_packings(dst: &mut Vec<Packing>, src: &Vec<Packing>)
    requires
        old(dst)@.no_duplicates(),
    ensures
        final(dst)@.no_duplicates(),
        forall|p: Packing|
            #[trigger] final(dst)@.contains(p) <==> (old(dst)@.contains(p) || src@.contains(p)),
{
    let mut k: usize = 0;
    proof {
        assert(src@.take(0) =~= Seq::<Packing>::empty());
    }
    while k < src.len()
        invariant
            k <= src@.len(),
            dst@.no_duplicates(),
            forall|p: Packing|
                #[trigger] dst@.contains(p) <==> (old(dst)@.contains(p) || src@.take(
                    k as int,
                ).contains(p)),
        decreases src@.len() - k,
    {
        let candidate = src[k];
        let ghost before = dst@;
        if !contains_packing(dst, &candidate) {
            proof {
                lemma_no_dup_push(before, candidate);
            }
            dst.push(candidate);
        }
        proof {
            assert(src@.take(k as int + 1).drop_last() =~= src@.take(k as int));
            assert(src@.take(k as int + 1) =~= src@.take(k as int).push(candidate));
            assert forall|p: Packing|
                #[trigger] dst@.contains(p) <==> (old(dst)@.contains(p) || src@.take(
                    k as int + 1,
                ).contains(p)) by {
                if dst@.contains(p) {
                    let n = choose|n: int| 0 <= n < dst@.len() && dst@[n] == p;
                    if n < before.len() {
                        assert(before.contains(p));
                        if src@.take(k as int).contains(p) {
                            crate::seqs::lemma_push_contains(src@.take(k as int), candidate, p);
                        }
                    } else {
                        assert(p == candidate);
                        assert(src@.take(k as int + 1)[k as int] == candidate);
                    }
                }
                if old(dst)@.contains(p) {
                    assert(before.contains(p));
                    let m = choose|m: int| 0 <= m < before.len() && before[m] == p;
                    assert(dst@[m] == p);
                    assert(dst@.contains(p));
                }
                if src@.take(k as int + 1).contains(p) {
                    let n = choose|n: int|
                        0 <= n < k + 1 && #[trigger] src@.take(k as int + 1)[n] == p;
                    if n < k {
                        assert(src@.take(k as int)[n] == p);
                        assert(src@.take(k as int).contains(p));
                        assert(before.contains(p));
                        let m = choose|m: int| 0 <= m < before.len() && before[m] == p;
                        assert(dst@[m] == p);
                    } else {
                        assert(p == candidate);
                        if before.contains(candidate) {
                            let m = choose|m: int| 0 <= m < before.len() && before[m] == candidate;
                            assert(dst@[m] == candidate);
                        } else {
                            assert(dst@[dst@.len() - 1] == candidate);
                        }
                    }
                    assert(dst@.contains(p));
                }
            }
        }
        k = k + 1;
    }
    proof {
        assert(src@.take(src@.len() as int) =~= src@);
    }
}

/// The multiset of triples held by the first `p` bins together.
spec fn bins_triple_multiset(bins: Seq<(Signature, Vec<Triple>)>, p: int) -> Multiset<Triple>
    decreases p,
{
    if p <= 0 {
        Multiset::empty()
    } else {
        bins_triple_multiset(bins, p - 1).add(bins[p - 1].1@.to_multiset())
    }
}

/// The triples of `ts` whose key under `pk` is exactly `key`, in order.
spec fn triples_with_key(ts: Seq<Triple>, pk: Signature, key: Signature) -> Seq<Triple>
    decreases ts.len(),
{
    if ts.len() == 0 {
        Seq::empty()
    } else {
        let rest = triples_with_key(ts.drop_last(), pk, key);
        if pk.spec_intersection(ts.last().mask) == key {
            rest.push(ts.last())
        } else {
            rest
        }
    }
}

/// The triples of `ts` whose key under `pk` lies in `ks`, in order.
spec fn triples_with_keyset(ts: Seq<Triple>, pk: Signature, ks: Set<Signature>) -> Seq<Triple>
    decreases ts.len(),
{
    if ts.len() == 0 {
        Seq::empty()
    } else {
        let rest = triples_with_keyset(ts.drop_last(), pk, ks);
        if ks.contains(pk.spec_intersection(ts.last().mask)) {
            rest.push(ts.last())
        } else {
            rest
        }
    }
}

/// The keys of the first `p` bins.
spec fn keyset_upto(bins: Seq<(Signature, Vec<Triple>)>, p: int) -> Set<Signature> {
    Set::new(|s: Signature| exists|q: int| 0 <= q < p && (#[trigger] bins[q]).0 == s)
}

/// Some triple of the first `bound` has exactly this key: every key ever
/// recorded has a witness, so no bin comes out empty.
spec fn key_has_triple(ts: Seq<Triple>, pk: Signature, key: Signature, bound: int) -> bool {
    exists|n: int| 0 <= n < bound && pk.spec_intersection((#[trigger] ts[n]).mask) == key
}

/// A key witness within a prefix is one within any longer prefix.
proof fn lemma_key_has_triple_widen(
    ts: Seq<Triple>,
    pk: Signature,
    key: Signature,
    b1: int,
    b2: int,
)
    requires
        key_has_triple(ts, pk, key, b1),
        b1 <= b2,
    ensures
        key_has_triple(ts, pk, key, b2),
{
    let n0 = choose|n0: int|
        0 <= n0 < b1 && pk.spec_intersection((#[trigger] ts[n0]).mask) == key;
    assert(0 <= n0 < b2 && pk.spec_intersection(ts[n0].mask) == key);
}

/// The empty keyset keeps nothing.
proof fn lemma_keyset_empty(ts: Seq<Triple>, pk: Signature)
    ensures
        triples_with_keyset(ts, pk, Set::empty()) == Seq::<Triple>::empty(),
    decreases ts.len(),
{
    if ts.len() > 0 {
        lemma_keyset_empty(ts.drop_last(), pk);
        assert(!Set::<Signature>::empty().contains(pk.spec_intersection(ts.last().mask)));
    }
}

/// Splitting one fresh key off a keyset splits the kept triples' multiset.
proof fn lemma_keyset_split(ts: Seq<Triple>, pk: Signature, ks: Set<Signature>, key: Signature)
    requires
        !ks.contains(key),
    ensures
        triples_with_keyset(ts, pk, ks.insert(key)).to_multiset() == triples_with_keyset(
            ts,
            pk,
            ks,
        ).to_multiset().add(triples_with_key(ts, pk, key).to_multiset()),
    decreases ts.len(),
{
    if ts.len() == 0 {
        crate::seqs::lemma_empty_to_multiset::<Triple>();
        assert(Multiset::<Triple>::empty().add(Multiset::<Triple>::empty())
            =~= Multiset::<Triple>::empty());
    } else {
        lemma_keyset_split(ts.drop_last(), pk, ks, key);
        let t = ts.last();
        let kt = pk.spec_intersection(t.mask);
        let li = triples_with_keyset(ts.drop_last(), pk, ks.insert(key));
        let lk = triples_with_keyset(ts.drop_last(), pk, ks);
        let lx = triples_with_key(ts.drop_last(), pk, key);
        if kt == key {
            assert(ks.insert(key).contains(kt));
            assert(triples_with_keyset(ts, pk, ks.insert(key)) == li.push(t));
            assert(triples_with_key(ts, pk, key) == lx.push(t));
            assert(li.push(t).to_multiset() =~= lk.to_multiset().add(lx.push(t).to_multiset()));
        } else if ks.contains(kt) {
            assert(ks.insert(key).contains(kt));
            assert(triples_with_keyset(ts, pk, ks.insert(key)) == li.push(t));
            assert(triples_with_keyset(ts, pk, ks) == lk.push(t));
            assert(li.push(t).to_multiset() =~= lk.push(t).to_multiset().add(lx.to_multiset()));
        } else {
            assert(!ks.insert(key).contains(kt));
        }
    }
}

/// With every key of `ts` in `ks`, the keyset filter keeps everything.
proof fn lemma_keyset_all(ts: Seq<Triple>, pk: Signature, ks: Set<Signature>)
    requires
        forall|n: int|
            0 <= n < ts.len() ==> ks.contains(
                pk.spec_intersection((#[trigger] ts[n]).mask),
            ),
    ensures
        triples_with_keyset(ts, pk, ks) == ts,
    decreases ts.len(),
{
    if ts.len() > 0 {
        assert forall|n: int| 0 <= n < ts.drop_last().len() implies ks.contains(
            pk.spec_intersection((#[trigger] ts.drop_last()[n]).mask),
        ) by {
            assert(ts.drop_last()[n] == ts[n]);
        }
        lemma_keyset_all(ts.drop_last(), pk, ks);
        assert(ks.contains(pk.spec_intersection(ts[ts.len() - 1].mask)));
        assert(triples_with_keyset(ts, pk, ks) =~= ts);
    } else {
        assert(triples_with_keyset(ts, pk, ks) =~= ts);
    }
}

/// With one bin per distinct key, the first `p` bins together hold exactly
/// the triples whose key is among their keys.
proof fn lemma_bins_multiset(
    ts: Seq<Triple>,
    pk: Signature,
    bins: Seq<(Signature, Vec<Triple>)>,
    p: int,
)
    requires
        0 <= p <= bins.len(),
        forall|q1: int, q2: int|
            0 <= q1 < q2 < bins.len() ==> (#[trigger] bins[q1].0).mask() != (
            #[trigger] bins[q2].0).mask(),
        forall|q: int|
            0 <= q < bins.len() ==> (#[trigger] bins[q]).1@ == triples_with_key(
                ts,
                pk,
                bins[q].0,
            ),
    ensures
        bins_triple_multiset(bins, p) == triples_with_keyset(
            ts,
            pk,
            keyset_upto(bins, p),
        ).to_multiset(),
    decreases p,
{
    if p == 0 {
        assert(keyset_upto(bins, 0) =~= Set::<Signature>::empty());
        lemma_keyset_empty(ts, pk);
        crate::seqs::lemma_empty_to_multiset::<Triple>();
    } else {
        lemma_bins_multiset(ts, pk, bins, p - 1);
        let key = bins[p - 1].0;
        assert(!keyset_upto(bins, p - 1).contains(key)) by {
            if keyset_upto(bins, p - 1).contains(key) {
                let q = choose|q: int| 0 <= q < p - 1 && (#[trigger] bins[q]).0 == key;
                assert(bins[q].0.mask() != bins[p - 1].0.mask());
            }
        }
        lemma_keyset_split(ts, pk, keyset_upto(bins, p - 1), key);
        assert(keyset_upto(bins, p) =~= keyset_upto(bins, p - 1).insert(key)) by {
            assert forall|s: Signature|
                keyset_upto(bins, p).contains(s) <==> keyset_upto(bins, p - 1).insert(
                    key,
                ).contains(s) by {
                if keyset_upto(bins, p).contains(s) {
                    let q = choose|q: int| 0 <= q < p && (#[trigger] bins[q]).0 == s;
                    if q < p - 1 {
                        assert(keyset_upto(bins, p - 1).contains(s));
                    } else {
                        assert(s == key);
                    }
                }
                if keyset_upto(bins, p - 1).insert(key).contains(s) {
                    if s == key {
                        assert((#[trigger] bins[p - 1]).0 == s);
                        assert(keyset_upto(bins, p).contains(s));
                    } else {
                        assert(keyset_upto(bins, p - 1).contains(s));
                        let q = choose|q: int| 0 <= q < p - 1 && (#[trigger] bins[q]).0 == s;
                        assert(keyset_upto(bins, p).contains(s));
                    }
                }
            }
        }
        assert(bins[p - 1].1@ == triples_with_key(ts, pk, key));
    }
}

/// Partition triples by their intersection with the partition key.
///
/// Groups triples into bins, one per distinct key: a triple lands in the
/// bin keyed by its own union mask restricted to `partition_key`. The keys
/// are pairwise distinct sub-masks of `partition_key`, every bin is
/// nonempty, and together the bins hold exactly the input triples, with
/// their multiplicities.
#[verifier::rlimit(30)]
fn partition_triples_by_signature(triples: &Vec<Triple>, partition_key: Signature) -> (bins: Vec<
    (Signature, Vec<Triple>),
>)
    ensures
        forall|p: int, q: int|
            0 <= p < q < bins@.len() ==> (#[trigger] bins@[p].0).mask() != (
            #[trigger] bins@[q].0).mask(),
        forall|p: int, n: int|
            0 <= p < bins@.len() && 0 <= n < bins@[p].1@.len() ==> partition_key.spec_intersection(
                (#[trigger] bins@[p].1@[n]).mask,
            ) == bins@[p].0 && triples@.contains(bins@[p].1@[n]),
        forall|n: int| 0 <= n < triples@.len() ==> in_bins(bins@, #[trigger] triples@[n]),
        forall|p: int| 0 <= p < bins@.len() ==> (#[trigger] bins@[p]).1@.len() > 0,
        forall|p: int|
            0 <= p < bins@.len() ==> (#[trigger] bins@[p]).0.mask() & partition_key.mask()
                == bins@[p].0.mask(),
        bins_triple_multiset(bins@, bins@.len() as int) == triples@.to_multiset(),
{
    let mut keys: Vec<Signature> = Vec::new();
    let mut i: usize = 0;
    while i < triples.len()
        invariant
            i <= triples@.len(),
            forall|a: int, b: int| 0 <= a < b < keys@.len() ==> keys@[a] != keys@[b],
            forall|n: int|
                0 <= n < i ==> keys@.contains(
                    partition_key.spec_intersection((#[trigger] triples@[n]).mask),
                ),
            forall|q: int|
                0 <= q < keys@.len() ==> key_has_triple(
                    triples@,
                    partition_key,
                    #[trigger] keys@[q],
                    i as int,
                ),
        decreases triples@.len() - i,
    {
        let t = triples[i];
        let key = partition_key.intersection(t.mask);
        if !contains_sig(&keys, key) {
            let ghost before = keys@;
            keys.push(key);
            proof {
                assert(keys@[keys@.len() - 1] == key);
                assert forall|n: int|
                    0 <= n < i + 1 implies keys@.contains(
                    partition_key.spec_intersection((#[trigger] triples@[n]).mask),
                ) by {
                    if n < i {
                        crate::seqs::lemma_push_contains(
                            before,
                            key,
                            partition_key.spec_intersection(triples@[n].mask),
                        );
                    }
                }
                assert forall|q: int|
                    0 <= q < keys@.len() implies key_has_triple(
                    triples@,
                    partition_key,
                    #[trigger] keys@[q],
                    i as int + 1,
                ) by {
                    if q < before.len() {
                        assert(keys@[q] == before[q]);
                        lemma_key_has_triple_widen(
                            triples@,
                            partition_key,
                            keys@[q],
                            i as int,
                            i as int + 1,
                        );
                    } else {
                        assert(keys@[q] == key);
                        assert(partition_key.spec_intersection(triples@[i as int].mask) == key);
                        assert(key_has_triple(triples@, partition_key, key, i as int + 1));
                    }
                }
            }
        } else {
            proof {
                assert forall|q: int|
                    0 <= q < keys@.len() implies key_has_triple(
                    triples@,
                    partition_key,
                    #[trigger] keys@[q],
                    i as int + 1,
                ) by {
                    lemma_key_has_triple_widen(
                        triples@,
                        partition_key,
                        keys@[q],
                        i as int,
                        i as int + 1,
                    );
                }
            }
        }
        i = i + 1;
    }
    let mut bins: Vec<(Signature, Vec<Triple>)> = Vec::new();
    let mut p: usize = 0;
    while p < keys.len()
        invariant
            p <= keys@.len(),
            bins@.len() == p,
            forall|a: int, b: int| 0 <= a < b < keys@.len() ==> keys@[a] != keys@[b],
            forall|q: int| 0 <= q < p ==> (#[trigger] bins@[q]).0 == keys@[q],
            forall|n: int|
                0 <= n < triples@.len() ==> keys@.contains(
                    partition_key.spec_intersection((#[trigger] triples@[n]).mask),
                ),
            forall|q: int|
                0 <= q < keys@.len() ==> key_has_triple(
                    triples@,
                    partition_key,
                    #[trigger] keys@[q],
                    i as int,
                ),
            forall|q: int|
                0 <= q < p ==> (#[trigger] bins@[q]).1@ == triples_with_key(
                    triples@,
                    partition_key,
                    bins@[q].0,
                ),
            forall|q: int, n: int|
                0 <= q < p && 0 <= n < bins@[q].1@.len() ==> partition_key.spec_intersection(
                    (#[trigger] bins@[q].1@[n]).mask,
                ) == bins@[q].0 && triples@.contains(bins@[q].1@[n]),
            forall|q: int, n: int|
                0 <= q < p && 0 <= n < triples@.len() && partition_key.spec_intersection(
                    (#[trigger] triples@[n]).mask,
                ) == (#[trigger] bins@[q]).0 ==> bins@[q].1@.contains(triples@[n]),
        decreases keys@.len() - p,
    {
        let key = keys[p];
        let mut bin: Vec<Triple> = Vec::new();
        let mut n: usize = 0;
        proof {
            assert(triples@.take(0) =~= Seq::<Triple>::empty());
            assert(bin@ =~= triples_with_key(triples@.take(0), partition_key, key));
        }
        while n < triples.len()
            invariant
                n <= triples@.len(),
                bin@ == triples_with_key(triples@.take(n as int), partition_key, key),
                forall|m: int|
                    0 <= m < bin@.len() ==> partition_key.spec_intersection(
                        (#[trigger] bin@[m]).mask,
                    ) == key && triples@.contains(bin@[m]),
                forall|m: int|
                    0 <= m < n && partition_key.spec_intersection((#[trigger] triples@[m]).mask)
                        == key ==> bin@.contains(triples@[m]),
            decreases triples@.len() - n,
        {
            let t = triples[n];
            let tkey = partition_key.intersection(t.mask);
            let ghost before = bin@;
            if tkey == key {
                bin.push(t);
                proof {
                    assert(bin@[bin@.len() - 1] == t);
                    assert(triples@.contains(t));
                    assert forall|m: int|
                        0 <= m < n + 1 && partition_key.spec_intersection(
                            (#[trigger] triples@[m]).mask,
                        ) == key implies bin@.contains(triples@[m]) by {
                        if m < n {
                            crate::seqs::lemma_push_contains(before, t, triples@[m]);
                        }
                    }
                }
            }
            proof {
                assert(triples@.take(n as int + 1).drop_last() =~= triples@.take(n as int));
                assert(triples@.take(n as int + 1).last() == triples@[n as int]);
                assert(triples@[n as int] == t);
                assert(bin@ =~= triples_with_key(
                    triples@.take(n as int + 1),
                    partition_key,
                    key,
                ));
            }
            n = n + 1;
        }
        proof {
            assert(triples@.take(triples@.len() as int) =~= triples@);
            assert(bin@ == triples_with_key(triples@, partition_key, key));
        }
        let ghost bins_before = bins@;
        bins.push((key, bin));
        proof {
            assert(bins@[bins@.len() - 1] == (key, bin));
            assert forall|q: int, n: int|
                0 <= q < p + 1 && 0 <= n < bins@[q].1@.len() implies
                partition_key.spec_intersection((#[trigger] bins@[q].1@[n]).mask) == bins@[q].0
                && triples@.contains(bins@[q].1@[n]) by {
                if q < p {
                    assert(bins@[q] == bins_before[q]);
                } else {
                    assert(bins@[q] == (key, bin));
                    assert(bins@[q].1@[n] == bin@[n]);
                }
            }
            assert forall|q: int, n: int|
                0 <= q < p + 1 && 0 <= n < triples@.len() && partition_key.spec_intersection(
                    (#[trigger] triples@[n]).mask,
                ) == (#[trigger] bins@[q]).0 implies bins@[q].1@.contains(triples@[n]) by {
                if q < p {
                    assert(bins@[q] == bins_before[q]);
                } else {
                    assert(bins@[q] == (key, bin));
                }
            }
            assert forall|q: int|
                0 <= q < p + 1 implies (#[trigger] bins@[q]).1@ == triples_with_key(
                triples@,
                partition_key,
                bins@[q].0,
            ) by {
                if q < p {
                    assert(bins@[q] == bins_before[q]);
                } else {
                    assert(bins@[q] == (key, bin));
                }
            }
        }
        p = p + 1;
    }
    proof {
        assert forall|p2: int, q2: int|
            0 <= p2 < q2 < bins@.len() implies (#[trigger] bins@[p2].0).mask() != (
        #[trigger] bins@[q2].0).mask() by {
            assert(bins@[p2].0 == keys@[p2] && bins@[q2].0 == keys@[q2]);
            if bins@[p2].0.mask() == bins@[q2].0.mask() {
                assert(keys@[p2] == keys@[q2]);
            }
        }
        assert forall|n: int| 0 <= n < triples@.len() implies in_bins(
            bins@,
            #[trigger] triples@[n],
        ) by {
            let tkey = partition_key.spec_intersection(triples@[n].mask);
            assert(keys@.contains(tkey));
            let q = choose|q: int| 0 <= q < keys@.len() && keys@[q] == tkey;
            assert(bins@[q].0 == tkey);
            assert(bins@[q].1@.contains(triples@[n]));
        }
        assert forall|p2: int| 0 <= p2 < bins@.len() implies (#[trigger] bins@[p2]).1@.len()
            > 0 by {
            assert(bins@[p2].0 == keys@[p2]);
            assert(key_has_triple(triples@, partition_key, keys@[p2], i as int));
            let n0 = choose|n0: int|
                0 <= n0 < i && partition_key.spec_intersection((#[trigger] triples@[n0]).mask)
                    == keys@[p2];
            assert(0 <= n0 < triples@.len());
            assert(bins@[p2].1@.contains(triples@[n0]));
        }
        assert forall|p2: int| 0 <= p2 < bins@.len() implies (#[trigger] bins@[p2]).0.mask()
            & partition_key.mask() == bins@[p2].0.mask() by {
            assert(bins@[p2].1@.len() > 0);
            let tm = bins@[p2].1@[0].mask.mask();
            let r = partition_key.mask();
            assert(partition_key.spec_intersection(bins@[p2].1@[0].mask) == bins@[p2].0);
            assert(bins@[p2].0.mask() == r & tm);
            assert((r & tm) & r == (r & tm)) by (bit_vector);
        }
        assert(bins_triple_multiset(bins@, bins@.len() as int) == triples@.to_multiset()) by {
            lemma_bins_multiset(triples@, partition_key, bins@, bins@.len() as int);
            assert forall|n: int|
                0 <= n < triples@.len() implies keyset_upto(
                bins@,
                bins@.len() as int,
            ).contains(partition_key.spec_intersection((#[trigger] triples@[n]).mask)) by {
                let tkey = partition_key.spec_intersection(triples@[n].mask);
                assert(keys@.contains(tkey));
                let q = choose|q: int| 0 <= q < keys@.len() && keys@[q] == tkey;
                assert((#[trigger] bins@[q]).0 == tkey);
            }
            lemma_keyset_all(triples@, partition_key, keyset_upto(bins@, bins@.len() as int));
        }
    }
    bins
}

/// How one recorded packing arises from two triples: same answer, guesses
/// sorted canonically, holding exactly the six signatures of the two
/// triples.
spec fn merged_packing(answer: Signature, t1: Triple, t2: Triple, p: Packing) -> bool {
    &&& p.answer == answer
    &&& sig_sorted(p.guesses@)
    &&& p.guesses@.to_multiset() == (t1.signatures@ + t2.signatures@).to_multiset()
}

/// Some pair of binned triples with disjoint union masks merges into `p`.
spec fn merged_from_bins(
    bins: Seq<(Signature, Vec<Triple>)>,
    answer: Signature,
    p: Packing,
) -> bool {
    exists|t1: Triple, t2: Triple|
        in_bins(bins, t1) && in_bins(bins, t2) && t1.mask.disjoint(t2.mask)
            && #[trigger] merged_packing(answer, t1, t2, p)
}

/// The output holds a merge of the disjoint triple pair `(t1, t2)`.
spec fn recorded(out: Seq<Packing>, answer: Signature, t1: Triple, t2: Triple) -> bool {
    exists|p: Packing| out.contains(p) && #[trigger] merged_packing(answer, t1, t2, p)
}

/// The roles of the two triples in a merge are interchangeable.
proof fn lemma_merged_packing_symmetric(answer: Signature, t1: Triple, t2: Triple, p: Packing)
    requires
        merged_packing(answer, t1, t2, p),
    ensures
        merged_packing(answer, t2, t1, p),
{
    vstd::seq_lib::lemma_multiset_commutative(t1.signatures@, t2.signatures@);
    vstd::seq_lib::lemma_multiset_commutative(t2.signatures@, t1.signatures@);
    assert((t1.signatures@ + t2.signatures@).to_multiset() =~= (t2.signatures@
        + t1.signatures@).to_multiset());
}

/// A recorded merge stays recorded as the output grows.
proof fn lemma_recorded_push(
    out: Seq<Packing>,
    x: Packing,
    answer: Signature,
    t1: Triple,
    t2: Triple,
)
    requires
        recorded(out, answer, t1, t2),
    ensures
        recorded(out.push(x), answer, t1, t2),
{
    let p = choose|p: Packing| out.contains(p) && #[trigger] merged_packing(answer, t1, t2, p);
    crate::seqs::lemma_push_contains(out, x, p);
}

/// Every disjoint triple pair whose first bin lies below `b1` has been
/// merged and recorded.
spec fn scan_upto(
    out: Seq<Packing>,
    bins: Seq<(Signature, Vec<Triple>)>,
    answer: Signature,
    b1: int,
) -> bool {
    forall|p1: int, p2: int, m1: int, m2: int|
        0 <= p1 < b1 && p1 <= p2 < bins.len() && 0 <= m1 < bins[p1].1@.len() && 0 <= m2
            < bins[p2].1@.len() && (#[trigger] bins[p1].1@[m1]).mask.disjoint(
            (#[trigger] bins[p2].1@[m2]).mask,
        ) ==> recorded(out, answer, bins[p1].1@[m1], bins[p2].1@[m2])
}

/// Every disjoint triple pair from bin `b1` and a bin below `b2` has been
/// merged and recorded.
spec fn scan_mid(
    out: Seq<Packing>,
    bins: Seq<(Signature, Vec<Triple>)>,
    answer: Signature,
    b1: int,
    b2: int,
) -> bool {
    forall|p2: int, m1: int, m2: int|
        b1 <= p2 < b2 && 0 <= m1 < bins[b1].1@.len() && 0 <= m2 < bins[p2].1@.len() && (
        #[trigger] bins[b1].1@[m1]).mask.disjoint((#[trigger] bins[p2].1@[m2]).mask)
            ==> recorded(out, answer, bins[b1].1@[m1], bins[p2].1@[m2])
}

/// Within the bin pair `(b1, b2)`: done for all first triples below `x`.
spec fn scan_x(
    out: Seq<Packing>,
    bins: Seq<(Signature, Vec<Triple>)>,
    answer: Signature,
    b1: int,
    b2: int,
    x: int,
) -> bool {
    forall|m1: int, m2: int|
        0 <= m1 < x && 0 <= m2 < bins[b2].1@.len() && (#[trigger] bins[b1].1@[m1]).mask.disjoint(
            (#[trigger] bins[b2].1@[m2]).mask,
        ) ==> recorded(out, answer, bins[b1].1@[m1], bins[b2].1@[m2])
}

/// Within the bin pair `(b1, b2)` at first triple `x`: done for all second
/// triples below `y`.
spec fn scan_y(
    out: Seq<Packing>,
    bins: Seq<(Signature, Vec<Triple>)>,
    answer: Signature,
    b1: int,
    b2: int,
    x: int,
    y: int,
) -> bool {
    forall|m2: int|
        0 <= m2 < y && bins[b1].1@[x].mask.disjoint((#[trigger] bins[b2].1@[m2]).mask)
            ==> recorded(out, answer, bins[b1].1@[x], bins[b2].1@[m2])
}

/// Everything the scan emits is a merge of some disjoint binned pair.
spec fn scan_sound(
    out: Seq<Packing>,
    bins: Seq<(Signature, Vec<Triple>)>,
    answer: Signature,
) -> bool {
    forall|n: int| 0 <= n < out.len() ==> merged_from_bins(bins, answer, #[trigger] out[n])
}

/// Disjoint masks have disjoint keys under any common reference mask, so a
/// bin pair whose keys overlap can hold no disjoint triple pair.
proof fn lemma_key_pruning(m1: u32, m2: u32, r: u32)
    requires
        m1 & m2 == 0,
    ensures
        (r & m1) & (r & m2) == 0,
{
    assert(m1 & m2 == 0 ==> (r & m1) & (r & m2) == 0) by (bit_vector);
}

/// Merge disjoint triples into packings using partition-based pruning.
///
/// Iterates over unordered bin pairs; a pair whose keys overlap is skipped
/// whole, which loses nothing because keys are sub-masks of the triples'
/// union masks. Every disjoint cross-bin triple pair is merged into a
/// canonically sorted packing, and nothing else is emitted.
fn scan_and_merge_partitions(
    bins: &Vec<(Signature, Vec<Triple>)>,
    answer: Signature,
    partition_key: Ghost<Signature>,
) -> (out: Vec<Packing>)
    requires
        forall|p: int, n: int|
            0 <= p < bins@.len() && 0 <= n < bins@[p].1@.len() ==> bins@[p].0
                == partition_key@.spec_intersection((#[trigger] bins@[p].1@[n]).mask),
    ensures
        scan_sound(out@, bins@, answer),
        forall|t1: Triple, t2: Triple|
            in_bins(bins@, t1) && in_bins(bins@, t2) && t1.mask.disjoint(t2.mask)
                ==> #[trigger] recorded(out@, answer, t1, t2),
{
    let mut out: Vec<Packing> = Vec::new();
    let mut b1: usize = 0;
    while b1 < bins.len()
        invariant
            b1 <= bins@.len(),
            forall|p: int, n: int|
                0 <= p < bins@.len() && 0 <= n < bins@[p].1@.len() ==> bins@[p].0
                    == partition_key@.spec_intersection((#[trigger] bins@[p].1@[n]).mask),
            scan_sound(out@, bins@, answer),
            scan_upto(out@, bins@, answer, b1 as int),
        decreases bins@.len() - b1,
    {
        let key1 = bins[b1].0;
        let mut b2: usize = b1;
        while b2 < bins.len()
            invariant
                b1 < bins@.len(),
                b1 <= b2 <= bins@.len(),
                key1 == bins@[b1 as int].0,
                forall|p: int, n: int|
                    0 <= p < bins@.len() && 0 <= n < bins@[p].1@.len() ==> bins@[p].0
                        == partition_key@.spec_intersection((#[trigger] bins@[p].1@[n]).mask),
                scan_sound(out@, bins@, answer),
                scan_upto(out@, bins@, answer, b1 as int),
                scan_mid(out@, bins@, answer, b1 as int, b2 as int),
            decreases bins@.len() - b2,
        {
            let key2 = bins[b2].0;
            if key1.disjoint(key2) {
                let mut x: usize = 0;
                while x < bins[b1].1.len()
                    invariant
                        b1 < bins@.len(),
                        b1 <= b2 < bins@.len(),
                        x <= bins@[b1 as int].1@.len(),
                        forall|p: int, n: int|
                            0 <= p < bins@.len() && 0 <= n < bins@[p].1@.len() ==> bins@[p].0
                                == partition_key@.spec_intersection(
                                (#[trigger] bins@[p].1@[n]).mask,
                            ),
                        scan_sound(out@, bins@, answer),
                        scan_upto(out@, bins@, answer, b1 as int),
                        scan_mid(out@, bins@, answer, b1 as int, b2 as int),
                        scan_x(out@, bins@, answer, b1 as int, b2 as int, x as int),
                    decreases bins@[b1 as int].1@.len() - x,
                {
                    let triple1 = bins[b1].1[x];
                    let mut y: usize = 0;
                    while y < bins[b2].1.len()
                        invariant
                            b1 < bins@.len(),
                            b1 <= b2 < bins@.len(),
                            x < bins@[b1 as int].1@.len(),
                            y <= bins@[b2 as int].1@.len(),
                            triple1 == bins@[b1 as int].1@[x as int],
                            forall|p: int, n: int|
                                0 <= p < bins@.len() && 0 <= n < bins@[p].1@.len() ==> bins@[p].0
                                    == partition_key@.spec_intersection(
                                    (#[trigger] bins@[p].1@[n]).mask,
                                ),
                            scan_sound(out@, bins@, answer),
                            scan_upto(out@, bins@, answer, b1 as int),
                            scan_mid(out@, bins@, answer, b1 as int, b2 as int),
                            scan_x(out@, bins@, answer, b1 as int, b2 as int, x as int),
                            scan_y(
                                out@,
                                bins@,
                                answer,
                                b1 as int,
                                b2 as int,
                                x as int,
                                y as int,
                            ),
                        decreases bins@[b2 as int].1@.len() - y,
                    {
                        let triple2 = bins[b2].1[y];
                        if triple1.disjoint(triple2) {
                            let guesses = Packing::sort(triple1.signatures, triple2.signatures);
                            let packing = Packing::new(answer, guesses);
                            let ghost before = out@;
                            out.push(packing);
                            proof {
                                assert(out@[out@.len() - 1] == packing);
                                assert(out@.contains(packing));
                                assert(guesses@.to_multiset() == (triple1.signatures@
                                    + triple2.signatures@).to_multiset());
                                assert(merged_packing(answer, triple1, triple2, packing));
                                assert(bins@[b1 as int].1@[x as int] == triple1);
                                assert(bins@[b1 as int].1@.contains(triple1));
                                assert(in_bins(bins@, triple1));
                                assert(bins@[b2 as int].1@[y as int] == triple2);
                                assert(bins@[b2 as int].1@.contains(triple2));
                                assert(in_bins(bins@, triple2));
                                assert(merged_from_bins(bins@, answer, packing));
                                assert(scan_sound(out@, bins@, answer)) by {
                                    assert forall|n: int|
                                        0 <= n < out@.len() implies merged_from_bins(
                                        bins@,
                                        answer,
                                        #[trigger] out@[n],
                                    ) by {
                                        if n < before.len() {
                                            assert(out@[n] == before[n]);
                                        } else {
                                            assert(out@[n] == packing);
                                        }
                                    }
                                }
                                assert(recorded(out@, answer, triple1, triple2));
                                assert(scan_upto(out@, bins@, answer, b1 as int)) by {
                                    assert forall|p1: int, p2: int, m1: int, m2: int|
                                        0 <= p1 < b1 as int && p1 <= p2 < bins@.len() && 0 <= m1
                                            < bins@[p1].1@.len() && 0 <= m2 < bins@[p2].1@.len()
                                            && (#[trigger] bins@[p1].1@[m1]).mask.disjoint(
                                            (#[trigger] bins@[p2].1@[m2]).mask,
                                        ) implies recorded(
                                        out@,
                                        answer,
                                        bins@[p1].1@[m1],
                                        bins@[p2].1@[m2],
                                    ) by {
                                        lemma_recorded_push(
                                            before,
                                            packing,
                                            answer,
                                            bins@[p1].1@[m1],
                                            bins@[p2].1@[m2],
                                        );
                                    }
                                }
                                assert(scan_mid(out@, bins@, answer, b1 as int, b2 as int)) by {
                                    assert forall|p2: int, m1: int, m2: int|
                                        b1 as int <= p2 < b2 as int && 0 <= m1 < bins@[
                                            b1 as int
                                        ].1@.len() && 0 <= m2 < bins@[p2].1@.len() && (
                                        #[trigger] bins@[b1 as int].1@[m1]).mask.disjoint(
                                            (#[trigger] bins@[p2].1@[m2]).mask,
                                        ) implies recorded(
                                        out@,
                                        answer,
                                        bins@[b1 as int].1@[m1],
                                        bins@[p2].1@[m2],
                                    ) by {
                                        lemma_recorded_push(
                                            before,
                                            packing,
                                            answer,
                                            bins@[b1 as int].1@[m1],
                                            bins@[p2].1@[m2],
                                        );
                                    }
                                }
                                assert(scan_x(
                                    out@,
                                    bins@,
                                    answer,
                                    b1 as int,
                                    b2 as int,
                                    x as int,
                                )) by {
                                    assert forall|m1: int, m2: int|
                                        0 <= m1 < x as int && 0 <= m2 < bins@[b2 as int].1@.len()
                                            && (#[trigger] bins@[b1 as int].1@[m1]).mask.disjoint(
                                            (#[trigger] bins@[b2 as int].1@[m2]).mask,
                                        ) implies recorded(
                                        out@,
                                        answer,
                                        bins@[b1 as int].1@[m1],
                                        bins@[b2 as int].1@[m2],
                                    ) by {
                                        lemma_recorded_push(
                                            before,
                                            packing,
                                            answer,
                                            bins@[b1 as int].1@[m1],
                                            bins@[b2 as int].1@[m2],
                                        );
                                    }
                                }
                                assert(scan_y(
                                    out@,
                                    bins@,
                                    answer,
                                    b1 as int,
                                    b2 as int,
                                    x as int,
                                    y as int + 1,
                                )) by {
                                    assert forall|m2: int|
                                        0 <= m2 < y as int + 1 && bins@[b1 as int].1@[
                                            x as int
                                        ].mask.disjoint(
                                            (#[trigger] bins@[b2 as int].1@[m2]).mask,
                                        ) implies recorded(
                                        out@,
                                        answer,
                                        bins@[b1 as int].1@[x as int],
                                        bins@[b2 as int].1@[m2],
                                    ) by {
                                        if m2 < y as int {
                                            lemma_recorded_push(
                                                before,
                                                packing,
                                                answer,
                                                bins@[b1 as int].1@[x as int],
                                                bins@[b2 as int].1@[m2],
                                            );
                                        } else {
                                            assert(bins@[b2 as int].1@[m2] == triple2);
                                        }
                                    }
                                }
                            }
                        }
                        y = y + 1;
                    }
                    proof {
                        assert(scan_x(
                            out@,
                            bins@,
                            answer,
                            b1 as int,
                            b2 as int,
                            x as int + 1,
                        )) by {
                            assert forall|m1: int, m2: int|
                                0 <= m1 < x as int + 1 && 0 <= m2 < bins@[b2 as int].1@.len() && (
                                #[trigger] bins@[b1 as int].1@[m1]).mask.disjoint(
                                    (#[trigger] bins@[b2 as int].1@[m2]).mask,
                                ) implies recorded(
                                out@,
                                answer,
                                bins@[b1 as int].1@[m1],
                                bins@[b2 as int].1@[m2],
                            ) by {
                                if m1 == x as int {
                                    assert(scan_y(
                                        out@,
                                        bins@,
                                        answer,
                                        b1 as int,
                                        b2 as int,
                                        x as int,
                                        bins@[b2 as int].1@.len() as int,
                                    ));
                                }
                            }
                        }
                    }
                    x = x + 1;
                }
                proof {
                    assert(scan_mid(out@, bins@, answer, b1 as int, b2 as int + 1)) by {
                        assert forall|p2: int, m1: int, m2: int|
                            b1 as int <= p2 < b2 as int + 1 && 0 <= m1 < bins@[
                                b1 as int
                            ].1@.len() && 0 <= m2 < bins@[p2].1@.len() && (#[trigger] bins@[
                                b1 as int
                            ].1@[m1]).mask.disjoint((#[trigger] bins@[p2].1@[m2]).mask) implies
                            recorded(out@, answer, bins@[b1 as int].1@[m1], bins@[p2].1@[m2]) by {
                            if p2 == b2 as int {
                                assert(scan_x(
                                    out@,
                                    bins@,
                                    answer,
                                    b1 as int,
                                    b2 as int,
                                    bins@[b1 as int].1@.len() as int,
                                ));
                            }
                        }
                    }
                }
            } else {
                proof {
                    assert(scan_mid(out@, bins@, answer, b1 as int, b2 as int + 1)) by {
                        assert forall|p2: int, m1: int, m2: int|
                            b1 as int <= p2 < b2 as int + 1 && 0 <= m1 < bins@[
                                b1 as int
                            ].1@.len() && 0 <= m2 < bins@[p2].1@.len() && (#[trigger] bins@[
                                b1 as int
                            ].1@[m1]).mask.disjoint((#[trigger] bins@[p2].1@[m2]).mask) implies
                            recorded(out@, answer, bins@[b1 as int].1@[m1], bins@[p2].1@[m2]) by {
                            if p2 == b2 as int {
                                let t1 = bins@[b1 as int].1@[m1];
                                let t2 = bins@[b2 as int].1@[m2];
                                assert(key1 == partition_key@.spec_intersection(t1.mask));
                                assert(key2 == partition_key@.spec_intersection(t2.mask));
                                lemma_key_pruning(
                                    t1.mask.mask(),
                                    t2.mask.mask(),
                                    partition_key@.mask(),
                                );
                                assert(false);
                            }
                        }
                    }
                }
            }
            b2 = b2 + 1;
        }
        proof {
            assert(scan_upto(out@, bins@, answer, b1 as int + 1)) by {
                assert forall|p1: int, p2: int, m1: int, m2: int|
                    0 <= p1 < b1 as int + 1 && p1 <= p2 < bins@.len() && 0 <= m1 < bins@[
                        p1
                    ].1@.len() && 0 <= m2 < bins@[p2].1@.len() && (
                    #[trigger] bins@[p1].1@[m1]).mask.disjoint((#[trigger] bins@[p2].1@[m2]).mask)
                    implies recorded(out@, answer, bins@[p1].1@[m1], bins@[p2].1@[m2]) by {
                    if p1 == b1 as int {
                        assert(scan_mid(out@, bins@, answer, b1 as int, bins@.len() as int));
                    }
                }
            }
        }
        b1 = b1 + 1;
    }
    proof {
        assert forall|t1: Triple, t2: Triple|
            in_bins(bins@, t1) && in_bins(bins@, t2) && t1.mask.disjoint(t2.mask) implies
            #[trigger] recorded(out@, answer, t1, t2) by {
            let q1 = choose|q1: int| 0 <= q1 < bins@.len() && #[trigger] bins@[q1].1@.contains(t1);
            let q2 = choose|q2: int| 0 <= q2 < bins@.len() && #[trigger] bins@[q2].1@.contains(t2);
            let m1 = choose|m1: int| 0 <= m1 < bins@[q1].1@.len() && bins@[q1].1@[m1] == t1;
            let m2 = choose|m2: int| 0 <= m2 < bins@[q2].1@.len() && bins@[q2].1@[m2] == t2;
            assert(scan_upto(out@, bins@, answer, bins@.len() as int));
            if q1 <= q2 {
                assert(recorded(out@, answer, t1, t2));
            } else {
                assert(t2.mask.disjoint(t1.mask)) by {
                    let a = t1.mask.mask();
                    let b = t2.mask.mask();
                    assert(a & b == 0 ==> b & a == 0) by (bit_vector);
                }
                assert(recorded(out@, answer, t2, t1));
                let p = choose|p: Packing|
                    out@.contains(p) && #[trigger] merged_packing(answer, t2, t1, p);
                lemma_merged_packing_symmetric(answer, t2, t1, p);
                assert(merged_packing(answer, t1, t2, p));
            }
        }
    }
    out
}

/// Every word of the list is a five-letter lowercase word, as the search
/// requires of its vocabularies.
pub open spec fn wordlist_ok(words: Seq<&str>) -> bool {
    forall|i: int|
        0 <= i < words.len() ==> (#[trigger] words[i])@.len() == 5 && lower_word(words[i]@)
}

/// A union's components are sub-masks of it.
proof fn lemma_component_submask(a: u32, b: u32, c: u32)
    ensures
        (a & (a | b | c)) == a,
        (b & (a | b | c)) == b,
        (c & (a | b | c)) == c,
{
    assert((a & (a | b | c)) == a && (b & (a | b | c)) == b && (c & (a | b | c)) == c)
        by (bit_vector);
}

/// Sub-masks of disjoint masks are disjoint.
proof fn lemma_submask_disjoint(a: u32, b: u32, m1: u32, m2: u32)
    requires
        (a & m1) == a,
        (b & m2) == b,
        m1 & m2 == 0,
    ensures
        a & b == 0,
{
    assert(((a & m1) == a && (b & m2) == b && m1 & m2 == 0) ==> a & b == 0) by (bit_vector);
}

/// A merge of two well-formed, mutually disjoint candidate triples is a
/// valid packing over the guess vocabulary.
proof fn lemma_merged_is_valid(
    answer: Signature,
    gs: Seq<Signature>,
    t1: Triple,
    t2: Triple,
    p: Packing,
)
    requires
        t1.wf(),
        t2.wf(),
        forall|q: int|
            0 <= q < 3 ==> gs.contains(#[trigger] t1.signatures@[q]) && t1.signatures@[q].disjoint(
                answer,
            ),
        forall|q: int|
            0 <= q < 3 ==> gs.contains(#[trigger] t2.signatures@[q]) && t2.signatures@[q].disjoint(
                answer,
            ),
        forall|n: int| 0 <= n < gs.len() ==> (#[trigger] gs[n]).mask() != 0,
        t1.mask.disjoint(t2.mask),
        merged_packing(answer, t1, t2, p),
    ensures
        valid_packing(answer, gs, p),
{
    let all6 = t1.signatures@ + t2.signatures@;
    assert(all6.len() == 6);
    assert(forall|q: int| 0 <= q < 3 ==> all6[q] == t1.signatures@[q]);
    assert(forall|q: int| 3 <= q < 6 ==> all6[q] == t2.signatures@[q - 3]);
    assert forall|q: int| 0 <= q < 6 implies gs.contains(#[trigger] all6[q]) && all6[q].disjoint(
        answer,
    ) && all6[q].mask() != 0 by {
        let n = choose|n: int| 0 <= n < gs.len() && gs[n] == all6[q];
        assert(gs[n].mask() != 0);
    }
    assert forall|a: int, b: int| 0 <= a < b < 6 implies all6[a].disjoint(all6[b]) by {
        if b < 3 {
            assert(t1.wf());
        } else if a >= 3 {
            assert(t2.wf());
        } else {
            let s1 = all6[a];
            let s2 = all6[b];
            lemma_component_submask(
                t1.signatures@[0].mask(),
                t1.signatures@[1].mask(),
                t1.signatures@[2].mask(),
            );
            lemma_component_submask(
                t2.signatures@[0].mask(),
                t2.signatures@[1].mask(),
                t2.signatures@[2].mask(),
            );
            assert(s1.mask() & t1.mask.mask() == s1.mask());
            assert(s2.mask() & t2.mask.mask() == s2.mask());
            lemma_submask_disjoint(s1.mask(), s2.mask(), t1.mask.mask(), t2.mask.mask());
        }
    }
    assert(all6.no_duplicates()) by {
        assert forall|a: int, b: int| 0 <= a < b < 6 implies all6[a] != all6[b] by {
            assert(all6[a].disjoint(all6[b]));
            if all6[a] == all6[b] {
                let m = all6[a].mask();
                assert(m & m == 0 ==> m == 0) by (bit_vector);
            }
        }
    }
    all6.lemma_multiset_has_no_duplicates();
    assert forall|i: int| 0 <= i < 6 implies gs.contains(#[trigger] p.guesses@[i])
        && p.guesses@[i].disjoint(answer) by {
        assert(p.guesses@.contains(p.guesses@[i]));
        assert(all6.to_multiset().count(p.guesses@[i]) > 0);
        assert(all6.contains(p.guesses@[i]));
        let q = choose|q: int| 0 <= q < all6.len() && all6[q] == p.guesses@[i];
        assert(gs.contains(all6[q]));
    }
    assert(p.guesses@.no_duplicates()) by {
        assert(forall|x: Signature|
            p.guesses@.to_multiset().contains(x) ==> #[trigger] p.guesses@.to_multiset().count(x)
                == 1);
        p.guesses@.lemma_multiset_has_no_duplicates_conv();
    }
    assert forall|i: int, j: int| 0 <= i < j < 6 implies (#[trigger] p.guesses@[i]).disjoint(
        #[trigger] p.guesses@[j],
    ) by {
        let gi = p.guesses@[i];
        let gj = p.guesses@[j];
        assert(gi != gj);
        assert(p.guesses@.contains(gi) && p.guesses@.contains(gj));
        assert(all6.to_multiset().count(gi) > 0 && all6.to_multiset().count(gj) > 0);
        assert(all6.contains(gi) && all6.contains(gj));
        let a = choose|a: int| 0 <= a < 6 && all6[a] == gi;
        let b = choose|b: int| 0 <= b < 6 && all6[b] == gj;
        assert(a != b);
        if a < b {
            assert(all6[a].disjoint(all6[b]));
        } else {
            assert(all6[b].disjoint(all6[a]));
            let x = gi.mask();
            let y = gj.mask();
            assert(y & x == 0 ==> x & y == 0) by (bit_vector);
        }
    }
    assert(sig_strictly_sorted(p.guesses@)) by {
        assert forall|i: int, j: int| 0 <= i < j < 6 implies p.guesses@[i].mask()
            < p.guesses@[j].mask() by {
            assert(p.guesses@[i].mask() <= p.guesses@[j].mask());
            if p.guesses@[i].mask() == p.guesses@[j].mask() {
                assert(p.guesses@[i] == p.guesses@[j]);
                assert(p.guesses@.no_duplicates());
            }
        }
    }
}

/// Forward direction of the per-answer search: everything the scan emits
/// is a valid packing over the guess vocabulary.
#[verifier::rlimit(50)]
proof fn lemma_merge_sound(
    answer: Signature,
    gs: Seq<Signature>,
    triples: Seq<Triple>,
    bins: Seq<(Signature, Vec<Triple>)>,
    merged: Seq<Packing>,
)
    requires
        forall|n: int| 0 <= n < gs.len() ==> (#[trigger] gs[n]).mask() != 0,
        forall|n: int| 0 <= n < triples.len() ==> (#[trigger] triples[n]).wf(),
        forall|n: int, q: int|
            0 <= n < triples.len() && 0 <= q < 3 ==> gs.contains(
                #[trigger] triples[n].signatures@[q],
            ) && triples[n].signatures@[q].disjoint(answer),
        forall|p: int, n: int|
            0 <= p < bins.len() && 0 <= n < bins[p].1@.len() ==> triples.contains(
                #[trigger] bins[p].1@[n],
            ),
        scan_sound(merged, bins, answer),
    ensures
        forall|p: Packing| #[trigger] merged.contains(p) ==> valid_packing(answer, gs, p),
{
    assert forall|p: Packing| #[trigger] merged.contains(p) implies valid_packing(
        answer,
        gs,
        p,
    ) by {
        let n = choose|n: int| 0 <= n < merged.len() && merged[n] == p;
        assert(merged_from_bins(bins, answer, merged[n]));
        let (t1, t2) = choose|t1: Triple, t2: Triple|
            in_bins(bins, t1) && in_bins(bins, t2) && t1.mask.disjoint(t2.mask)
                && #[trigger] merged_packing(answer, t1, t2, p);
        let q1 = choose|q1: int| 0 <= q1 < bins.len() && #[trigger] bins[q1].1@.contains(t1);
        let q2 = choose|q2: int| 0 <= q2 < bins.len() && #[trigger] bins[q2].1@.contains(t2);
        let m1 = choose|m1: int| 0 <= m1 < bins[q1].1@.len() && bins[q1].1@[m1] == t1;
        let m2 = choose|m2: int| 0 <= m2 < bins[q2].1@.len() && bins[q2].1@[m2] == t2;
        assert(triples.contains(t1));
        assert(triples.contains(t2));
        let n1 = choose|n1: int| 0 <= n1 < triples.len() && triples[n1] == t1;
        let n2 = choose|n2: int| 0 <= n2 < triples.len() && triples[n2] == t2;
        assert(t1.wf() && t2.wf());
        lemma_merged_is_valid(answer, gs, t1, t2, p);
    }
}

/// Backward direction of the per-answer search: every valid packing is
/// found, because its two halves are enumerated as triples, binned, and the
/// bin pair survives key pruning.
#[verifier::rlimit(50)]
proof fn lemma_merge_complete(
    answer: Signature,
    gs: Seq<Signature>,
    triples: Seq<Triple>,
    bins: Seq<(Signature, Vec<Triple>)>,
    merged: Seq<Packing>,
)
    requires
        forall|n: int| 0 <= n < triples.len() ==> (#[trigger] triples[n]).wf(),
        forall|x: Signature, y: Signature, z: Signature|
            #![trigger gs.contains(x), gs.contains(y), gs.contains(z)]
            (gs.contains(x) && gs.contains(y) && gs.contains(z) && x.disjoint(answer)
                && y.disjoint(answer) && z.disjoint(answer) && x.mask() < y.mask() && y.mask()
                < z.mask() && x.disjoint(y) && x.disjoint(z) && y.disjoint(z)) ==> has_triple(
                triples,
                x,
                y,
                z,
            ),
        forall|n: int| 0 <= n < triples.len() ==> in_bins(bins, #[trigger] triples[n]),
        forall|t1: Triple, t2: Triple|
            in_bins(bins, t1) && in_bins(bins, t2) && t1.mask.disjoint(t2.mask)
                ==> #[trigger] recorded(merged, answer, t1, t2),
    ensures
        forall|p: Packing| valid_packing(answer, gs, p) ==> #[trigger] merged.contains(p),
{
    assert forall|p: Packing| valid_packing(answer, gs, p) implies #[trigger] merged.contains(
        p,
    ) by {
        let g0 = p.guesses@[0];
        let g1 = p.guesses@[1];
        let g2 = p.guesses@[2];
        let g3 = p.guesses@[3];
        let g4 = p.guesses@[4];
        let g5 = p.guesses@[5];
        assert(gs.contains(g0) && g0.disjoint(p.answer));
        assert(gs.contains(g1) && g1.disjoint(p.answer));
        assert(gs.contains(g2) && g2.disjoint(p.answer));
        assert(gs.contains(g3) && g3.disjoint(p.answer));
        assert(gs.contains(g4) && g4.disjoint(p.answer));
        assert(gs.contains(g5) && g5.disjoint(p.answer));
        assert(has_triple(triples, g0, g1, g2));
        assert(has_triple(triples, g3, g4, g5));
        let n1 = choose|n1: int|
            0 <= n1 < triples.len() && triples[n1].signatures@ == seq![g0, g1, g2];
        let n2 = choose|n2: int|
            0 <= n2 < triples.len() && triples[n2].signatures@ == seq![g3, g4, g5];
        let t1 = triples[n1];
        let t2 = triples[n2];
        assert(t1.signatures@[0] == g0 && t1.signatures@[1] == g1 && t1.signatures@[2] == g2);
        assert(t2.signatures@[0] == g3 && t2.signatures@[1] == g4 && t2.signatures@[2] == g5);
        assert(t1.wf() && t2.wf());
        assert(t1.mask.disjoint(t2.mask)) by {
            let m0 = g0.mask();
            let m1 = g1.mask();
            let m2 = g2.mask();
            let m3 = g3.mask();
            let m4 = g4.mask();
            let m5 = g5.mask();
            assert((m0 | m1 | m2) & (m3 | m4 | m5) == 0) by (bit_vector)
                requires
                    m0 & m3 == 0,
                    m0 & m4 == 0,
                    m0 & m5 == 0,
                    m1 & m3 == 0,
                    m1 & m4 == 0,
                    m1 & m5 == 0,
                    m2 & m3 == 0,
                    m2 & m4 == 0,
                    m2 & m5 == 0,
            ;
        }
        assert(in_bins(bins, t1));
        assert(in_bins(bins, t2));
        assert(recorded(merged, answer, t1, t2));
        let pk = choose|pk: Packing|
            merged.contains(pk) && #[trigger] merged_packing(answer, t1, t2, pk);
        assert(t1.signatures@ + t2.signatures@ =~= p.guesses@);
        lemma_packing_canonical(pk, p);
    }
}

/// Appending a fresh packing keeps a list duplicate-free.
proof fn lemma_no_dup_push(s: Seq<Packing>, x: Packing)
    requires
        s.no_duplicates(),
        !s.contains(x),
    ensures
        s.push(x).no_duplicates(),
{
    assert forall|i: int, j: int| 0 <= i < j < s.push(x).len() implies s.push(x)[i] != s.push(
        x,
    )[j] by {
        if j == s.len() {
            if s.push(x)[i] == s.push(x)[j] {
                assert(s[i] == x);
                assert(s.contains(x));
            }
        }
    }
}

/// What the packer owes over whole word lists: `p` belongs to the final
/// packing set exactly when its answer is some answer word's mask, its six
/// guesses are guess words' masks in canonical order, and all seven
/// signatures are pairwise disjoint.
pub open spec fn valid_packing_for_words(
    answers: Seq<Seq<char>>,
    guesses: Seq<Seq<char>>,
    p: Packing,
) -> bool {
    &&& mask_set(answers).contains(p.answer.mask())
    &&& forall|i: int| 0 <= i < 6 ==> mask_set(guesses).contains((#[trigger] p.guesses@[i]).mask())
    &&& packing_disjoint(p)
    &&& sig_strictly_sorted(p.guesses@)
}

/// Packs all disjoint packings of signatures.
///
/// The `Packer` solves the core combinatorial problem: finding all
/// combinations of one answer signature and six guess signatures where all
/// seven are pairwise disjoint (share no letters in common). This ensures
/// guesses provide zero information about the answer.
///
/// The search runs in three stages for each answer: enumerate all disjoint
/// candidate triples, partition them by their intersection with the ten
/// most common letters, and merge triples from compatible partitions only.
pub struct Packer {

}

impl Packer {
    /// Convert word lists to unique, sorted signatures.
    pub fn compile_signatures(answers: &Vec<&str>, guesses: &Vec<&str>) -> (sigs: (
        Vec<Signature>,
        Vec<Signature>,
    ))
        requires
            wordlist_ok(answers@),
            wordlist_ok(guesses@),
        ensures
            sig_strictly_sorted(sigs.0@),
            sig_strictly_sorted(sigs.1@),
            forall|s: Signature|
                sigs.0@.contains(s) <==> mask_set(answers.deep_view()).contains(s.mask()),
            forall|s: Signature|
                sigs.1@.contains(s) <==> mask_set(guesses.deep_view()).contains(s.mask()),
            forall|n: int| 0 <= n < sigs.0@.len() ==> (#[trigger] sigs.0@[n]).mask() != 0,
            forall|n: int| 0 <= n < sigs.1@.len() ==> (#[trigger] sigs.1@[n]).mask() != 0,
    {
        (signatures_of(answers), signatures_of(guesses))
    }

    /// Run the three search stages for one answer; the merged list may
    /// still hold one packing several times, once per discovery route.
    fn merge_for_answer(guess_signatures: &Vec<Signature>, answer: Signature) -> (merged: Vec<
        Packing,
    >)
        requires
            sig_strictly_sorted(guess_signatures@),
            forall|n: int|
                0 <= n < guess_signatures@.len() ==> (#[trigger] guess_signatures@[n]).mask()
                    != 0,
        ensures
            forall|p: Packing|
                #[trigger] merged@.contains(p) <==> valid_packing(answer, guess_signatures@, p),
    {
        let triples = find_triples_for_answer(answer, guess_signatures);
        let partition_key = Signature::from_mask(REFERENCE_MASK);
        let bins = partition_triples_by_signature(&triples, partition_key);
        let merged = scan_and_merge_partitions(&bins, answer, Ghost(partition_key));
        proof {
            assert forall|p: int, n: int|
                0 <= p < bins@.len() && 0 <= n < bins@[p].1@.len() implies triples@.contains(
                #[trigger] bins@[p].1@[n],
            ) by {
            }
            lemma_merge_sound(answer, guess_signatures@, triples@, bins@, merged@);
            lemma_merge_complete(answer, guess_signatures@, triples@, bins@, merged@);
        }
        merged
    }

    /// Find all packings for a specific answer signature.
    ///
    /// This is done by (1) finding all triples for the answer, (2)
    /// partitioning them by signature, and (3) scanning and merging the
    /// partitions. The result holds, without duplicates, exactly the valid
    /// packings for this answer over the given guess vocabulary.
    pub fn pack_for_answer(guess_signatures: &Vec<Signature>, answer: Signature) -> (packings:
        Vec<Packing>)
        requires
            sig_strictly_sorted(guess_signatures@),
            forall|n: int|
                0 <= n < guess_signatures@.len() ==> (#[trigger] guess_signatures@[n]).mask()
                    != 0,
        ensures
            packings@.no_duplicates(),
            forall|p: Packing|
                #[trigger] packings@.contains(p) <==> valid_packing(answer, guess_signatures@, p),
    {
        let merged = Self::merge_for_answer(guess_signatures, answer);
        let mut packings: Vec<Packing> = Vec::new();
        merge_new_packings(&mut packings, &merged);
        packings
    }

    /// Find all possible packings over whole word lists, one answer at a
    /// time, merging the per-answer results into one duplicate-free set.
    pub fn pack_signatures(answers: &Vec<&str>, guesses: &Vec<&str>) -> (packings: Vec<Packing>)
        requires
            wordlist_ok(answers@),
            wordlist_ok(guesses@),
        ensures
            packings@.no_duplicates(),
            forall|p: Packing|
                #[trigger] packings@.contains(p) <==> valid_packing_for_words(
                    answers.deep_view(),
                    guesses.deep_view(),
                    p,
                ),
    {
        let sigs = Self::compile_signatures(answers, guesses);
        let answer_signatures = sigs.0;
        let guess_signatures = sigs.1;
        let mut packings: Vec<Packing> = Vec::new();
        let mut i: usize = 0;
        while i < answer_signatures.len()
            invariant
                i <= answer_signatures@.len(),
                sig_strictly_sorted(guess_signatures@),
                forall|n: int|
                    0 <= n < guess_signatures@.len() ==> (#[trigger] guess_signatures@[n]).mask()
                        != 0,
                packings@.no_duplicates(),
                forall|p: Packing|
                    #[trigger] packings@.contains(p) <==> exists|n: int|
                        0 <= n < i && #[trigger] valid_packing(
                            answer_signatures@[n],
                            guess_signatures@,
                            p,
                        ),
            decreases answer_signatures@.len() - i,
        {
            let answer = answer_signatures[i];
            let per_answer = Self::pack_for_answer(&guess_signatures, answer);
            let ghost before_merge = packings@;
            merge_new_packings(&mut packings, &per_answer);
            proof {
                assert forall|p: Packing|
                    #[trigger] packings@.contains(p) <==> exists|n: int|
                        0 <= n < i + 1 && #[trigger] valid_packing(
                            answer_signatures@[n],
                            guess_signatures@,
                            p,
                        ) by {
                    if packings@.contains(p) {
                        if per_answer@.contains(p) {
                            assert(valid_packing(
                                answer_signatures@[i as int],
                                guess_signatures@,
                                p,
                            ));
                        } else {
                            assert(before_merge.contains(p));
                        }
                    } else {
                        if exists|n: int|
                            0 <= n < i + 1 && #[trigger] valid_packing(
                                answer_signatures@[n],
                                guess_signatures@,
                                p,
                            ) {
                            let n = choose|n: int|
                                0 <= n < i + 1 && #[trigger] valid_packing(
                                    answer_signatures@[n],
                                    guess_signatures@,
                                    p,
                                );
                            if n == i {
                                assert(per_answer@.contains(p));
                            } else {
                                assert(before_merge.contains(p));
                            }
                        }
                    }
                }
            }
            i = i + 1;
        }
        proof {
            assert forall|p: Packing|
                #[trigger] packings@.contains(p) <==> valid_packing_for_words(
                    answers.deep_view(),
                    guesses.deep_view(),
                    p,
                ) by {
                if packings@.contains(p) {
                    let n = choose|n: int|
                        0 <= n < answer_signatures@.len() && #[trigger] valid_packing(
                            answer_signatures@[n],
                            guess_signatures@,
                            p,
                        );
                    assert(answer_signatures@.contains(answer_signatures@[n]));
                    assert(p.answer == answer_signatures@[n]);
                    assert(mask_set(answers.deep_view()).contains(p.answer.mask()));
                    assert forall|q: int|
                        0 <= q < 6 implies mask_set(guesses.deep_view()).contains(
                        (#[trigger] p.guesses@[q]).mask(),
                    ) by {
                        assert(guess_signatures@.contains(p.guesses@[q]));
                    }
                } else {
                    if valid_packing_for_words(answers.deep_view(), guesses.deep_view(), p) {
                        assert(answer_signatures@.contains(p.answer));
                        let n = choose|n: int|
                            0 <= n < answer_signatures@.len() && answer_signatures@[n]
                                == p.answer;
                        assert forall|q: int|
                            0 <= q < 6 implies guess_signatures@.contains(
                            #[trigger] p.guesses@[q],
                        ) by {
                            assert(mask_set(guesses.deep_view()).contains(p.guesses@[q].mask()));
                        }
                        assert(valid_packing(answer_signatures@[n], guess_signatures@, p));
                        assert(packings@.contains(p));
                    }
                }
            }
        }
        packings
    }
}

/// Insert one signature into a sorted vector, keeping it sorted.
fn insert_sorted(out: &mut Vec<Signature>, x: Signature)
    requires
        sig_sorted(old(out)@),
    ensures
        sig_sorted(final(out)@),
        final(out)@.to_multiset() == old(out)@.to_multiset().insert(x),
{
    let mut pos: usize = 0;
    while pos < out.len() && out[pos].mask() <= x.mask()
        invariant
            pos <= out@.len(),
            sig_sorted(out@),
            out@ == old(out)@,
            forall|k: int| 0 <= k < pos ==> out@[k].mask() <= x.mask(),
        decreases out@.len() - pos,
    {
        pos = pos + 1;
    }
    proof {
        lemma_insert_to_multiset(out@, pos as int, x);
    }
    out.insert(pos, x);
}

/// Insert a signature into a strictly sorted vector unless it is already
/// present, keeping the vector strictly sorted.
#[verifier::rlimit(30)]
fn insert_unique_sorted(v: &mut Vec<Signature>, x: Signature)
    requires
        sig_strictly_sorted(old(v)@),
    ensures
        sig_strictly_sorted(final(v)@),
        forall|s: Signature| final(v)@.contains(s) <==> old(v)@.contains(s) || s == x,
{
    let mut pos: usize = 0;
    while pos < v.len() && v[pos].mask() < x.mask()
        invariant
            pos <= v@.len(),
            sig_strictly_sorted(v@),
            v@ == old(v)@,
            forall|k: int| 0 <= k < pos ==> v@[k].mask() < x.mask(),
        decreases v@.len() - pos,
    {
        pos = pos + 1;
    }
    if pos < v.len() && v[pos].mask() == x.mask() {
        proof {
            assert(v@[pos as int] == x);
            assert(v@.contains(x));
        }
        return ;
    }
    let ghost pre = v@;
    v.insert(pos, x);
    proof {
        lemma_insert_to_multiset(pre, pos as int, x);
        pre.insert_ensures(pos as int, x);
        assert forall|s: Signature| v@.contains(s) <==> (old(v)@.contains(s) || s == x) by {
            assert(v@.contains(s) <==> v@.to_multiset().count(s) > 0);
            assert(v@.to_multiset() == pre.to_multiset().insert(x));
            assert(pre.contains(s) <==> pre.to_multiset().count(s) > 0);
            assert(pre == old(v)@);
        }
        assert(sig_strictly_sorted(v@)) by {
            assert forall|a: int, b: int| 0 <= a < b < v@.len() implies v@[a].mask()
                < v@[b].mask() by {
                if b < pos {
                    assert(v@[a] == pre[a] && v@[b] == pre[b]);
                } else if a < pos && b == pos {
                    assert(v@[a] == pre[a] && v@[b] == x);
                } else if a < pos && b > pos {
                    assert(v@[a] == pre[a] && v@[b] == pre[b - 1]);
                    if b - 1 > pos - 1 {
                        assert(pre[pos as int].mask() > x.mask());
                    }
                } else if a == pos && b > pos {
                    assert(v@[a] == x && v@[b] == pre[b - 1]);
                    assert(pre[pos as int].mask() > x.mask());
                    assert(b - 1 >= pos);
                } else {
                    assert(v@[a] == pre[a - 1] && v@[b] == pre[b - 1]);
                }
            }
        }
    }
}

/// Convert one word list to its set of distinct signatures, strictly sorted
/// by mask value.
pub(crate) fn signatures_of(words: &Vec<&str>) -> (sigs: Vec<Signature>)
    requires
        forall|i: int|
            0 <= i < words@.len() ==> (#[trigger] words@[i])@.len() == 5 && lower_word(
                words@[i]@,
            ),
    ensures
        sig_strictly_sorted(sigs@),
        forall|s: Signature| sigs@.contains(s) <==> mask_set(words.deep_view()).contains(s.mask()),
        forall|n: int| 0 <= n < sigs@.len() ==> (#[trigger] sigs@[n]).mask() != 0,
{
    let mut sigs: Vec<Signature> = Vec::new();
    let mut i: usize = 0;
    while i < words.len()
        invariant
            i <= words@.len(),
            forall|k: int|
                0 <= k < words@.len() ==> (#[trigger] words@[k])@.len() == 5 && lower_word(
                    words@[k]@,
                ),
            sig_strictly_sorted(sigs@),
            forall|s: Signature|
                #[trigger] sigs@.contains(s) <==> exists|j: int|
                    0 <= j < i && word_mask(#[trigger] words@[j]@) == s.mask(),
            forall|n: int| 0 <= n < sigs@.len() ==> (#[trigger] sigs@[n]).mask() != 0,
        decreases words@.len() - i,
    {
        let w = words[i];
        let sig = Signature::new(w);
        proof {
            crate::letters::lemma_word_mask_nonzero(w@);
        }
        let ghost before = sigs@;
        insert_unique_sorted(&mut sigs, sig);
        proof {
            assert forall|n: int| 0 <= n < sigs@.len() implies (#[trigger] sigs@[n]).mask()
                != 0 by {
                let s = sigs@[n];
                assert(sigs@.contains(s));
                if before.contains(s) {
                    let k = choose|k: int| 0 <= k < before.len() && before[k] == s;
                    assert(before[k].mask() != 0);
                }
            }
            assert forall|s: Signature|
                #[trigger] sigs@.contains(s) <==> exists|j: int|
                    0 <= j < i + 1 && word_mask(#[trigger] words@[j]@) == s.mask() by {
                if sigs@.contains(s) {
                    if before.contains(s) {
                        let j = choose|j: int|
                            0 <= j < i && word_mask(#[trigger] words@[j]@) == s.mask();
                        assert(0 <= j < i + 1 && word_mask(words@[j]@) == s.mask());
                    } else {
                        assert(s == sig);
                        assert(word_mask(words@[i as int]@) == s.mask());
                    }
                } else {
                    if exists|j: int|
                        0 <= j < i + 1 && word_mask(#[trigger] words@[j]@) == s.mask() {
                        let j = choose|j: int|
                            0 <= j < i + 1 && word_mask(#[trigger] words@[j]@) == s.mask();
                        if j < i {
                            assert(before.contains(s));
                            assert(sigs@.contains(s));
                        } else {
                            assert(s.mask() == sig.mask());
                            assert(s == sig);
                            assert(sigs@.contains(s));
                        }
                    }
                }
            }
        }
        i = i + 1;
    }
    proof {
        assert forall|s: Signature|
            sigs@.contains(s) <==> mask_set(words.deep_view()).contains(s.mask()) by {
            assert(words.deep_view().len() == words@.len());
            assert(forall|j: int|
                0 <= j < words@.len() ==> words.deep_view()[j] == #[trigger] words@[j]@);
        }
    }
    sigs
}

/// Filter the guess vocabulary down to the candidates compatible with one
/// answer: exactly the guesses that share no letter with it.
fn filter_candidates(answer: Signature, guess_signatures: &Vec<Signature>) -> (cands: Vec<
    Signature,
>)
    requires
        sig_strictly_sorted(guess_signatures@),
    ensures
        sig_strictly_sorted(cands@),
        forall|s: Signature|
            #[trigger] cands@.contains(s) <==> guess_signatures@.contains(s) && s.disjoint(
                answer,
            ),
{
    let gs = guess_signatures;
    let mut cands: Vec<Signature> = Vec::new();
    let mut i: usize = 0;
    while i < gs.len()
        invariant
            i <= gs@.len(),
            sig_strictly_sorted(gs@),
            sig_strictly_sorted(cands@),
            forall|s: Signature|
                #[trigger] cands@.contains(s) <==> gs@.take(i as int).contains(s) && s.disjoint(
                    answer,
                ),
            i > 0 ==> forall|k: int|
                0 <= k < cands@.len() ==> (#[trigger] cands@[k]).mask() <= gs@[
                    i as int - 1
                ].mask(),
        decreases gs@.len() - i,
    {
        let g = gs[i];
        let ghost before = cands@;
        let pushed = g.disjoint(answer);
        if pushed {
            cands.push(g);
            proof {
                assert forall|a: int, b: int| 0 <= a < b < cands@.len() implies cands@[a].mask()
                    < cands@[b].mask() by {
                    if b < cands@.len() - 1 {
                        assert(before[a].mask() < before[b].mask());
                    } else {
                        assert(cands@[b] == g);
                        if i > 0 {
                            assert(before[a].mask() <= gs@[i as int - 1].mask());
                            assert(gs@[i as int - 1].mask() < gs@[i as int].mask());
                        } else {
                            assert(before.contains(before[a]));
                            assert(gs@.take(0).contains(before[a]));
                            assert(gs@.take(0).len() == 0);
                        }
                    }
                }
            }
        }
        proof {
            assert(gs@.take(i as int + 1).drop_last() =~= gs@.take(i as int));
            assert(gs@.take(i as int + 1).last() == gs@[i as int]);
            assert forall|s: Signature|
                #[trigger] cands@.contains(s) <==> (gs@.take(i as int + 1).contains(s)
                    && s.disjoint(answer)) by {
                if cands@.contains(s) {
                    let n = choose|n: int| 0 <= n < cands@.len() && cands@[n] == s;
                    if n < before.len() {
                        assert(before.contains(s));
                        assert(gs@.take(i as int).contains(s));
                        let m = choose|m: int|
                            0 <= m < i && #[trigger] gs@.take(i as int)[m] == s;
                        assert(gs@.take(i as int + 1)[m] == s);
                        assert(gs@.take(i as int + 1).contains(s));
                    } else {
                        assert(s == g);
                        assert(gs@.take(i as int + 1)[i as int] == s);
                        assert(gs@.take(i as int + 1).contains(s));
                    }
                }
                if gs@.take(i as int + 1).contains(s) && s.disjoint(answer) {
                    let n = choose|n: int|
                        0 <= n < i + 1 && #[trigger] gs@.take(i as int + 1)[n] == s;
                    if n < i {
                        assert(gs@.take(i as int)[n] == s);
                        assert(gs@.take(i as int).contains(s));
                        assert(before.contains(s));
                        let m = choose|m: int| 0 <= m < before.len() && before[m] == s;
                        assert(cands@[m] == s);
                        assert(cands@.contains(s));
                    } else {
                        assert(s == gs@[i as int]);
                        assert(pushed);
                        assert(cands@[cands@.len() - 1] == s);
                        assert(cands@.contains(s));
                    }
                }
            }
            assert forall|k: int| 0 <= k < cands@.len() implies (#[trigger] cands@[k]).mask()
                <= gs@[i as int].mask() by {
                if k < before.len() {
                    if i > 0 {
                        assert(before[k].mask() <= gs@[i as int - 1].mask());
                        assert(gs@[i as int - 1].mask() < gs@[i as int].mask());
                    } else {
                        assert(before.contains(before[k]));
                        assert(gs@.take(0).contains(before[k]));
                        assert(gs@.take(0).len() == 0);
                    }
                }
            }
        }
        i = i + 1;
    }
    proof {
        assert(gs@.take(gs@.len() as int) =~= gs@);
    }
    cands
}

} // verus!
