use auto_correct::candidate::Candidate;
use auto_correct::config::AutoCorrectConfig;
use auto_correct::outbox::Outbox;
use auto_correct::AutoCorrect;
use std::sync::mpsc;

fn cand(word: &str, score: u32, edit: u8) -> Candidate {
    Candidate::new(String::from(word), score, edit)
}

fn small_service(max_edit: u8) -> AutoCorrect {
    let source: Vec<String> = ["the,1", "then,9", "he,5", "hen,7"]
        .iter()
        .map(|l| String::from(*l))
        .collect();
    let mut service = AutoCorrect::new();
    service.init_dict(&source);
    service.set_max_edit(max_edit);
    service
}

fn triples(found: &[Candidate]) -> Vec<(&str, u32, u8)> {
    found
        .iter()
        .map(|c| (c.word.as_str(), c.score, c.edit))
        .collect()
}

#[test]
fn open_outbox_hands_candidates_over_in_order() {
    let (tx, rx) = mpsc::channel();
    let mut outbox = Outbox::new(tx);
    assert!(!outbox.is_closed());
    assert!(outbox.deliver(cand("the", 5, 1)));
    assert!(outbox.deliver(cand("tie", 6, 2)));
    assert!(outbox.deliver(cand("the", 7, 3)));
    assert!(!outbox.is_closed());
    drop(outbox);
    let got: Vec<Candidate> = rx.iter().collect();
    assert_eq!(triples(&got), [("the", 5, 1), ("tie", 6, 2), ("the", 7, 3)]);
}

#[test]
fn outbox_closes_at_the_first_refusal() {
    let (tx, rx) = mpsc::channel();
    let mut outbox = Outbox::new(tx);
    assert!(outbox.deliver(cand("the", 5, 1)));
    assert_eq!(triples(&[rx.recv().unwrap()]), [("the", 5, 1)]);
    drop(rx);
    assert!(!outbox.is_closed());
    assert!(!outbox.deliver(cand("tie", 6, 2)));
    assert!(outbox.is_closed());
    assert!(!outbox.deliver(cand("toe", 6, 2)));
    assert!(outbox.is_closed());
}

#[test]
fn search_streams_into_an_outbox() {
    let service = small_service(2);
    let (tx, rx) = mpsc::channel();
    let mut outbox = Outbox::new(tx);
    assert_eq!(service.candidates_into(String::from("the"), &mut outbox), 4);
    assert!(!outbox.is_closed());
    assert_eq!(service.candidates_into(String::from("hen"), &mut outbox), 4);
    assert_eq!(service.candidates_into(String::from("zzzzzz"), &mut outbox), 0);
    assert!(!outbox.is_closed());
    drop(outbox);
    let got: Vec<Candidate> = rx.iter().collect();
    assert_eq!(
        triples(&got),
        [
            ("the", 1, 0),
            ("then", 9, 1),
            ("he", 5, 1),
            ("hen", 7, 2),
            ("hen", 7, 0),
            ("then", 9, 1),
            ("he", 5, 1),
            ("the", 1, 2)
        ]
    );
}

#[test]
fn streamed_candidates_are_the_listed_ones() {
    let service = small_service(2);
    let (tx, rx) = mpsc::channel();
    let mut outbox = Outbox::new(tx);
    let sent = service.candidates_into(String::from("the"), &mut outbox);
    drop(outbox);
    let mut streamed: Vec<Candidate> = rx.iter().collect();
    assert_eq!(sent, streamed.len());
    let listed = service.candidates(String::from("the"));
    streamed.sort_by(|a, b| b.cmp(a));
    assert_eq!(triples(&streamed), triples(&listed));
    let mut words: Vec<&str> = streamed.iter().map(|c| c.word.as_str()).collect();
    words.sort();
    words.dedup();
    assert_eq!(words.len(), streamed.len());
    assert!(streamed.iter().all(|c| c.edit <= 2));
}

#[test]
fn search_stops_at_a_closed_channel() {
    let service = small_service(2);
    let (tx, rx) = mpsc::channel();
    drop(rx);
    let mut outbox = Outbox::new(tx);
    assert_eq!(service.candidates_into(String::from("the"), &mut outbox), 0);
    assert!(outbox.is_closed());
    assert_eq!(service.candidates_into(String::from("hen"), &mut outbox), 0);
    assert!(outbox.is_closed());
}

#[test]
fn search_without_candidates_leaves_the_outbox_open() {
    let service = small_service(1);
    let (tx, rx) = mpsc::channel();
    drop(rx);
    let mut outbox = Outbox::new(tx);
    assert_eq!(service.candidates_into(String::from("zzzzzz"), &mut outbox), 0);
    assert!(!outbox.is_closed());
    assert_eq!(service.candidates_into(String::new(), &mut outbox), 0);
    assert!(!outbox.is_closed());
}
