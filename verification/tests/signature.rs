use wrong_wordle::LetterSet;
use wrong_wordle::Signature;

#[test]
fn test_basic_operations() {
    let hello = Signature::new("hello");
    let world = Signature::new("world");

    assert_eq!(hello.count_letters(), 4); // h, e, l, o
    assert_eq!(world.count_letters(), 5); // w, o, r, l, d
    assert!(!hello.disjoint(world)); // share 'l' and 'o'

    let union = hello.union(world);
    assert_eq!(union.count_letters(), 7); // h, e, l, o, w, r, d
}

#[test]
fn test_disjoint_signatures() {
    let brick = Signature::new("brick");
    let jumpy = Signature::new("jumpy");
    assert!(brick.disjoint(jumpy));
}

#[test]
fn test_anagrams_are_equal() {
    let slate = Signature::new("slate");
    let steal = Signature::new("steal");
    let tales = Signature::new("tales");

    assert_eq!(slate, steal);
    assert_eq!(steal, tales);
}

#[test]
fn test_intersection() {
    let hello = Signature::new("hello");
    let world = Signature::new("world");
    let intersection = hello.intersection(world);

    // Should contain 'l' and 'o'
    assert_eq!(intersection.count_letters(), 2);
}

#[test]
fn test_from_mask() {
    let mask = 0b111; // bits for 'a', 'b', 'c'
    let sig = Signature::from_mask(mask);
    assert_eq!(sig.mask(), mask);
    assert_eq!(sig.count_letters(), 3);
}

#[test]
fn test_signature_exact_mask() {
    // "slate" = {s, l, a, t, e}: bits 18, 11, 0, 19, 4.
    let slate = Signature::new("slate");
    let expected = (1u32 << 18) | (1 << 11) | (1 << 0) | (1 << 19) | (1 << 4);
    assert_eq!(slate.mask(), expected);
}

#[test]
fn test_disjoint_iff_counts_add() {
    // Disjoint signatures: the union's count is the sum of the counts.
    let brick = Signature::new("brick");
    let jumpy = Signature::new("jumpy");
    assert_eq!(
        brick.union(jumpy).count_letters(),
        brick.count_letters() + jumpy.count_letters()
    );

    // Overlapping signatures: the union's count falls short of the sum.
    let hello = Signature::new("hello");
    let world = Signature::new("world");
    assert!(hello.union(world).count_letters() < hello.count_letters() + world.count_letters());
}

#[test]
fn test_letterset_operations() {
    let hello = LetterSet::new("hello");
    let world = LetterSet::new("world");
    assert_eq!(hello.count_letters(), 4);
    assert_eq!(world.count_letters(), 5);
    assert!(!hello.disjoint(world));
    assert_eq!(hello.union(world).count_letters(), 7);
    assert_eq!(hello.intersection(world).count_letters(), 2);
}

#[test]
fn test_letterset_from_mask_and_longer_words() {
    // A LetterSet accepts words of any length over the lowercase alphabet.
    let ls = LetterSet::new("seaoriltnu");
    assert_eq!(ls.count_letters(), 10);
    assert_eq!(ls, LetterSet::from_mask(ls.mask()));
}
