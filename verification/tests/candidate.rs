use auto_correct::candidate::Candidate;
use auto_correct::ranking::sort_ranked;
use std::cmp::Ordering;

fn cand(word: &str, score: u32, edit: u8) -> Candidate {
    Candidate::new(String::from(word), score, edit)
}

fn words(found: &[Candidate]) -> Vec<&str> {
    found.iter().map(|c| c.word.as_str()).collect()
}

#[test]
fn new_fills_the_fields() {
    let c = cand("the", 1000, 1);
    assert_eq!(c.word, "the");
    assert_eq!(c.score, 1000);
    assert_eq!(c.edit, 1);
    assert_eq!(c.get_word(), "the");
}

#[test]
fn clone_keeps_every_field() {
    let c = cand("the", 1000, 2);
    let d = c.clone();
    assert_eq!(d.word, "the");
    assert_eq!(d.score, 1000);
    assert_eq!(d.edit, 2);
}

#[test]
fn candidates_are_equal_by_word() {
    assert_eq!(cand("the", 1, 0), cand("the", 900, 3));
    assert_ne!(cand("the", 1, 0), cand("then", 1, 0));
}

#[test]
fn smaller_edit_ranks_higher() {
    assert!(cand("a", 1, 2) < cand("b", 1, 1));
    assert!(cand("a", 1000, 2) < cand("b", 1, 1));
    assert!(cand("a", 1, 0) > cand("b", 4000, 3));
    assert_eq!(cand("a", 1, 2).cmp(&cand("b", 1, 1)), Ordering::Less);
    assert_eq!(cand("a", 1, 1).cmp(&cand("b", 1, 2)), Ordering::Greater);
}

#[test]
fn higher_score_ranks_higher_at_equal_edit() {
    assert!(cand("a", 1, 1) < cand("b", 2, 1));
    assert!(cand("a", 3, 1) > cand("b", 2, 1));
    assert_eq!(cand("a", 2, 1).cmp(&cand("b", 2, 1)), Ordering::Equal);
    assert_eq!(
        cand("a", 2, 1).partial_cmp(&cand("b", 2, 1)),
        Some(Ordering::Equal)
    );
    assert_eq!(cand("a", 1, 1).cmp(&cand("b", 2, 1)), Ordering::Less);
    assert_eq!(cand("a", 3, 1).cmp(&cand("b", 2, 1)), Ordering::Greater);
    assert!(cand("a", 1, 1).is_below(&cand("b", 2, 1)));
    assert!(!cand("a", 2, 1).is_below(&cand("b", 2, 1)));
    assert!(!cand("a", 1, 0).is_below(&cand("b", 2, 1)));
}

#[test]
fn sort_ranked_puts_the_best_first() {
    let found = vec![
        cand("far", 900, 2),
        cand("near", 5, 1),
        cand("exact", 1, 0),
        cand("nearer", 50, 1),
        cand("far2", 901, 2),
    ];
    let sorted = sort_ranked(&found);
    assert_eq!(words(&sorted), ["exact", "nearer", "near", "far2", "far"]);
}

#[test]
fn sort_ranked_keeps_equals_in_their_order() {
    let found = vec![
        cand("b", 5, 1),
        cand("a", 5, 1),
        cand("d", 5, 1),
        cand("c", 5, 1),
        cand("z", 9, 1),
        cand("e", 5, 1),
    ];
    let sorted = sort_ranked(&found);
    assert_eq!(words(&sorted), ["z", "b", "a", "d", "c", "e"]);
    assert!(sort_ranked(&Vec::new()).is_empty());
}

#[test]
fn sort_ranked_agrees_with_a_stable_sort() {
    let mut found: Vec<Candidate> = Vec::new();
    let mut seed: u32 = 12345;
    for i in 0..200 {
        seed = seed.wrapping_mul(1103515245).wrapping_add(12345);
        let score = (seed >> 16) % 7;
        let edit = ((seed >> 8) % 3) as u8;
        found.push(cand(&format!("w{}", i), score, edit));
    }
    let sorted = sort_ranked(&found);
    let mut expected = found.clone();
    expected.sort_by(|a, b| b.cmp(a));
    assert_eq!(words(&sorted), words(&expected));
}
