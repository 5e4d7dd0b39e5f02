use std::collections::HashSet;

use wrong_wordle::packer::{Packer, Packing};
use wrong_wordle::Filterer;
use wrong_wordle::LetterSet;
use wrong_wordle::Signature;

/// One answer group {a,b,c} and six mutually disjoint guess groups covering
/// 21 letters in all: the only valid packing picks one guess per group.
fn fixture() -> (Vec<&'static str>, Vec<&'static str>) {
    let answers = vec!["aabbc", "abcba"];
    let guesses = vec![
        "ddeef", "feded", "gghhi", "jjkkl", "mmnno", "ppqqr", "ssttu",
    ];
    (answers, guesses)
}

#[test]
fn test_fixture_yields_exactly_one_packing() {
    let (answers, guesses) = fixture();
    let packings = Packer::pack_signatures(&answers, &guesses);
    assert_eq!(packings.len(), 1);

    let packing = &packings[0];
    assert_eq!(*packing.answer(), Signature::new("aabbc"));
    let expected: HashSet<Signature> = ["ddeef", "gghhi", "jjkkl", "mmnno", "ppqqr", "ssttu"]
        .iter()
        .map(|w| Signature::new(w))
        .collect();
    let got: HashSet<Signature> = packing.guesses().iter().copied().collect();
    assert_eq!(got, expected);
}

#[test]
fn test_emitted_packings_are_pairwise_disjoint() {
    let (answers, guesses) = fixture();
    let packings = Packer::pack_signatures(&answers, &guesses);
    for packing in &packings {
        let mut all = vec![*packing.answer()];
        all.extend_from_slice(packing.guesses());
        for i in 0..all.len() {
            for j in (i + 1)..all.len() {
                assert!(all[i].disjoint(all[j]));
            }
        }
        // Zero overlap, equivalently: the union's letter count is the sum.
        let union = all.iter().fold(Signature::from_mask(0), |acc, s| acc.union(*s));
        let total: u32 = all.iter().map(|s| s.count_letters()).sum();
        assert_eq!(union.count_letters(), total);
    }
}

#[test]
fn test_packing_guesses_are_sorted() {
    let (answers, guesses) = fixture();
    let packings = Packer::pack_signatures(&answers, &guesses);
    for packing in &packings {
        let gs = packing.guesses();
        for i in 0..5 {
            assert!(gs[i].mask() < gs[i + 1].mask());
        }
    }
}

#[test]
fn test_sort_is_permutation_invariant() {
    // The canonical sort yields the same six signatures whichever way the
    // two triples are presented, so packing identity does not depend on
    // discovery order.
    let a = Signature::new("ddeef");
    let b = Signature::new("gghhi");
    let c = Signature::new("jjkkl");
    let d = Signature::new("mmnno");
    let e = Signature::new("ppqqr");
    let f = Signature::new("ssttu");
    let one = Packing::sort([a, b, c], [d, e, f]);
    let two = Packing::sort([d, e, f], [a, b, c]);
    let three = Packing::sort([f, e, d], [c, b, a]);
    assert_eq!(one, two);
    assert_eq!(one, three);
    let answer = Signature::new("aabbc");
    assert_eq!(Packing::new(answer, one), Packing::new(answer, two));
}

#[test]
fn test_new_is_permutation_invariant() {
    // Packing identity (and hashing) does not depend on the order in which
    // the six guesses are supplied to the constructor.
    let a = Signature::new("ddeef");
    let b = Signature::new("gghhi");
    let c = Signature::new("jjkkl");
    let d = Signature::new("mmnno");
    let e = Signature::new("ppqqr");
    let f = Signature::new("ssttu");
    let answer = Signature::new("aabbc");
    let p1 = Packing::new(answer, [a, b, c, d, e, f]);
    let p2 = Packing::new(answer, [f, d, b, e, a, c]);
    assert_eq!(p1, p2);

    let mut set: HashSet<Packing> = HashSet::new();
    set.insert(p1);
    assert!(set.contains(&p2));
    set.insert(p2);
    assert_eq!(set.len(), 1);
}

#[test]
fn test_too_few_candidates_yield_nothing() {
    // An answer whose guess vocabulary holds fewer than six mutually
    // disjoint candidates yields zero packings.
    let answers = vec!["aabbc"];
    let guesses = vec!["ddeef", "gghhi"];
    let packings = Packer::pack_signatures(&answers, &guesses);
    assert!(packings.is_empty());
}

#[test]
fn test_infeasible_answer_contributes_nothing() {
    // "ddeeg" overlaps two guess groups, leaving too few candidates; the
    // final set is the same as for the feasible answer alone.
    let (mut answers, guesses) = fixture();
    answers.push("ddeeg");
    let packings = Packer::pack_signatures(&answers, &guesses);
    assert_eq!(packings.len(), 1);
    assert_eq!(*packings[0].answer(), Signature::new("aabbc"));
}

#[test]
fn test_merge_order_does_not_matter() {
    // Two runs over identical inputs with reversed per-answer merge order
    // produce identical final sets.
    let (answers, guesses) = fixture();
    let (answer_signatures, guess_signatures) = Packer::compile_signatures(&answers, &guesses);

    let mut forward: HashSet<Packing> = HashSet::new();
    for answer in answer_signatures.iter() {
        forward.extend(Packer::pack_for_answer(&guess_signatures, *answer));
    }
    let mut backward: HashSet<Packing> = HashSet::new();
    for answer in answer_signatures.iter().rev() {
        backward.extend(Packer::pack_for_answer(&guess_signatures, *answer));
    }
    assert_eq!(forward, backward);

    let in_order = Packer::pack_signatures(&answers, &guesses);
    let as_set: HashSet<Packing> = in_order.into_iter().collect();
    assert_eq!(as_set, forward);
}

#[test]
fn test_filterer_matches_packer() {
    let (answers, guesses) = fixture();
    let filterer = Filterer::new(&answers, &guesses);
    let packings = filterer.find_packings();
    assert_eq!(packings.len(), 1);
    assert_eq!(*packings[0].answer(), LetterSet::new("aabbc"));
    let gs = packings[0].guesses();
    for i in 0..5 {
        assert!(gs[i].mask() < gs[i + 1].mask());
    }

    let sig_packings = Packer::pack_signatures(&answers, &guesses);
    assert_eq!(packings[0].answer().mask(), sig_packings[0].answer().mask());
    for i in 0..6 {
        assert_eq!(
            packings[0].guesses()[i].mask(),
            sig_packings[0].guesses()[i].mask()
        );
    }
}

#[test]
fn test_filterer_per_answer() {
    let (answers, guesses) = fixture();
    let filterer = Filterer::new(&answers, &guesses);
    let per_answer = filterer.find_packings_for_answer(LetterSet::new("aabbc"));
    assert_eq!(per_answer.len(), 1);

    // An answer overlapping two guess groups has too few candidates left.
    let none = filterer.find_packings_for_answer(LetterSet::new("ddegg"));
    assert!(none.is_empty());
}
