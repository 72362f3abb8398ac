use auto_correct::candidate::Candidate;
use auto_correct::stores::Stores;

fn cand(word: &str, score: u32, edit: u8) -> Candidate {
    Candidate::new(String::from(word), score, edit)
}

#[test]
fn inactive_stores_take_nothing() {
    let mut stores = Stores::new();
    assert!(stores.contains("the"));
    assert!(stores.publish(cand("the", 1, 1)));
    assert!(stores.collect().is_empty());
    stores.get_ready();
    assert!(!stores.contains("the"));
    assert!(!stores.publish(cand("the", 1, 1)));
}

#[test]
fn contains_remembers_what_it_was_asked() {
    let mut stores = Stores::new();
    stores.get_ready();
    assert!(!stores.contains("the"));
    assert!(stores.contains("the"));
    assert!(!stores.contains("then"));
    assert!(!stores.contains(""));
    assert!(stores.contains(""));
    assert!(stores.contains("then"));
    assert!(!stores.contains("The"));
}

#[test]
fn publish_keeps_the_first_candidate_of_a_word() {
    let mut stores = Stores::new();
    stores.get_ready();
    assert!(!stores.publish(cand("the", 5, 1)));
    assert!(stores.publish(cand("the", 9, 2)));
    assert!(!stores.publish(cand("then", 7, 2)));
    assert!(stores.publish(cand("the", 5, 1)));
    let found = stores.collect();
    assert_eq!(found.len(), 2);
    assert_eq!((found[0].word.as_str(), found[0].score, found[0].edit), ("the", 5, 1));
    assert_eq!((found[1].word.as_str(), found[1].score, found[1].edit), ("then", 7, 2));
}

#[test]
fn visited_strings_and_results_are_kept_apart() {
    let mut stores = Stores::new();
    stores.get_ready();
    assert!(!stores.contains("the"));
    assert!(!stores.publish(cand("the", 5, 1)));
    assert!(!stores.publish(cand("tie", 5, 1)));
    assert!(!stores.contains("tie"));
}

#[test]
fn collect_drains_the_results() {
    let mut stores = Stores::new();
    stores.get_ready();
    stores.publish(cand("the", 5, 1));
    assert_eq!(stores.collect().len(), 1);
    assert!(stores.collect().is_empty());
    assert!(!stores.publish(cand("the", 6, 2)));
    assert!(stores.contains("x") == false);
    assert_eq!(stores.collect()[0].score, 6);
}

#[test]
fn reset_ends_the_query() {
    let mut stores = Stores::new();
    stores.get_ready();
    stores.contains("the");
    stores.publish(cand("the", 5, 1));
    stores.reset();
    assert!(stores.contains("anything"));
    assert!(stores.publish(cand("new", 5, 1)));
    assert!(stores.collect().is_empty());
    stores.get_ready();
    assert!(!stores.contains("the"));
    assert!(!stores.publish(cand("the", 5, 1)));
    assert_eq!(stores.collect().len(), 1);
}

#[test]
fn stores_grow_past_their_starting_size() {
    let mut stores = Stores::new();
    stores.get_ready();
    for i in 0..1000 {
        assert!(!stores.contains(&format!("w{}", i)));
        assert!(!stores.publish(cand(&format!("w{}", i), i, 1)));
    }
    for i in 0..1000 {
        assert!(stores.contains(&format!("w{}", i)));
        assert!(stores.publish(cand(&format!("w{}", i), 0, 2)));
    }
    let found = stores.collect();
    assert_eq!(found.len(), 1000);
    assert_eq!(found[999].word, "w999");
}
