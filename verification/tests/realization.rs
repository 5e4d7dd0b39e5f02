use std::collections::HashSet;

use wrong_wordle::packer::{Packer, Packing};
use wrong_wordle::realizer::{RealizeError, Realizer};
use wrong_wordle::BadWordleSolution;
use wrong_wordle::Signature;

fn fixture() -> (Vec<&'static str>, Vec<&'static str>) {
    let answers = vec!["aabbc", "abcba"];
    let guesses = vec![
        "ddeef", "feded", "gghhi", "jjkkl", "mmnno", "ppqqr", "ssttu",
    ];
    (answers, guesses)
}

#[test]
fn test_realization_count_is_group_product() {
    // Answer group {a,b,c} holds 2 words and the {d,e,f} guess group holds
    // 2; all other groups hold 1. The one packing denotes 2 * 2 = 4
    // distinct solutions.
    let (answers, guesses) = fixture();
    let packings = Packer::pack_signatures(&answers, &guesses);
    let solutions = Realizer::realize_packings(&answers, &guesses, &packings).unwrap();
    assert_eq!(solutions.len(), 4);

    let answer_words: HashSet<&str> = solutions.iter().map(|s| s.answer().as_str()).collect();
    assert_eq!(answer_words, ["aabbc", "abcba"].iter().copied().collect());
}

#[test]
fn test_word_combinations_count_before_dedup() {
    // The pre-deduplication realization count equals the product of the
    // group sizes, duplicates included.
    let lists: Vec<Vec<String>> = vec![
        vec!["aabbc".to_string(), "abcba".to_string()],
        vec!["ddeef".to_string(), "feded".to_string()],
        vec!["gghhi".to_string()],
    ];
    let combos = wrong_wordle::realizer::word_combinations(&lists);
    assert_eq!(combos.len(), 4);

    // A duplicated word inflates the raw product; deduplication is the
    // realizer's job, not this function's.
    let with_dup: Vec<Vec<String>> = vec![
        vec!["aabbc".to_string(), "aabbc".to_string()],
        vec!["ddeef".to_string()],
    ];
    let raw = wrong_wordle::realizer::word_combinations(&with_dup);
    assert_eq!(raw.len(), 2);
}

#[test]
fn test_solutions_have_zero_letter_overlap() {
    let (answers, guesses) = fixture();
    let packings = Packer::pack_signatures(&answers, &guesses);
    let solutions = Realizer::realize_packings(&answers, &guesses, &packings).unwrap();
    for sol in &solutions {
        let mut union = Signature::new(sol.answer());
        let mut total = union.count_letters();
        for guess in sol.guesses() {
            let sig = Signature::new(guess);
            union = union.union(sig);
            total += sig.count_letters();
        }
        assert_eq!(union.count_letters(), total);
    }
}

#[test]
fn test_solution_guesses_are_sorted() {
    let (answers, guesses) = fixture();
    let packings = Packer::pack_signatures(&answers, &guesses);
    let solutions = Realizer::realize_packings(&answers, &guesses, &packings).unwrap();
    for sol in &solutions {
        let gs = sol.guesses();
        assert_eq!(gs.len(), 6);
        for i in 0..5 {
            assert!(gs[i] <= gs[i + 1]);
        }
    }
}

#[test]
fn test_solution_construction_sorts_guesses() {
    let sol = BadWordleSolution::new(
        "aabbc".to_string(),
        vec![
            "ssttu".to_string(),
            "gghhi".to_string(),
            "ddeef".to_string(),
            "ppqqr".to_string(),
            "jjkkl".to_string(),
            "mmnno".to_string(),
        ],
    );
    let expected = vec!["ddeef", "gghhi", "jjkkl", "mmnno", "ppqqr", "ssttu"];
    let got: Vec<&str> = sol.guesses().iter().map(|s| s.as_str()).collect();
    assert_eq!(got, expected);
}

#[test]
fn test_unknown_signature_is_an_error() {
    // A packing built from a different vocabulary misses the lookup
    // tables: an internal invariant violation, reported loudly.
    let (answers, guesses) = fixture();
    let tables = Realizer::compile_realizations(&answers, &guesses);
    let foreign = Packing::new(
        Signature::new("zzzzz"),
        [
            Signature::new("ddeef"),
            Signature::new("gghhi"),
            Signature::new("jjkkl"),
            Signature::new("mmnno"),
            Signature::new("ppqqr"),
            Signature::new("ssttu"),
        ],
    );
    let result = Realizer::realize_packing(&tables.0, &tables.1, &foreign);
    assert_eq!(result, Err(RealizeError::UnknownSignature));

    let ok = Realizer::realize_packings(&answers, &guesses, &vec![foreign]);
    assert!(ok.is_err());
}

#[test]
fn test_realize_packing_directly() {
    let (answers, guesses) = fixture();
    let packings = Packer::pack_signatures(&answers, &guesses);
    let tables = Realizer::compile_realizations(&answers, &guesses);
    let sols = Realizer::realize_packing(&tables.0, &tables.1, &packings[0]).unwrap();
    assert_eq!(sols.len(), 4);
    let distinct: HashSet<(String, Vec<String>)> = sols
        .iter()
        .map(|s| (s.answer().clone(), s.guesses().clone()))
        .collect();
    assert_eq!(distinct.len(), 4);
}
