use auto_correct::dynamic::populate_words_set;
use auto_correct::lexicon::parse_line;
use auto_correct::lexicon::parse_score_field;
use auto_correct::trie::Node;

fn lines(raw: &[&str]) -> Vec<String> {
    raw.iter().map(|l| String::from(*l)).collect()
}

#[test]
fn empty_trie_holds_nothing() {
    let root = Node::new();
    assert_eq!(root.check(""), None);
    assert_eq!(root.check("a"), None);
    assert_eq!(root.check("the"), None);
    assert_eq!(Node::default().check("the"), None);
}

#[test]
fn built_trie_finds_its_words() {
    let root = populate_words_set(&lines(&["the,1000", "then,7", "a,3", "tea,0010"])).0;
    assert_eq!(root.check("the"), Some(1000));
    assert_eq!(root.check("then"), Some(7));
    assert_eq!(root.check("a"), Some(3));
    assert_eq!(root.check("tea"), Some(10));
    assert_eq!(root.check("t"), None);
    assert_eq!(root.check("th"), None);
    assert_eq!(root.check("thee"), None);
    assert_eq!(root.check("te"), None);
    assert_eq!(root.check(""), None);
    assert_eq!(root.check("b"), None);
}

#[test]
fn larger_score_of_a_word_is_kept() {
    let root = populate_words_set(&lines(&["the,5", "the,1000", "the,7"])).0;
    assert_eq!(root.check("the"), Some(1000));
    let root = populate_words_set(&lines(&["the,1000", "the,5"])).0;
    assert_eq!(root.check("the"), Some(1000));
    let root = populate_words_set(&lines(&["the,5", "the,5"])).0;
    assert_eq!(root.check("the"), Some(5));
    let root = populate_words_set(&lines(&["the,0"])).0;
    assert_eq!(root.check("the"), Some(0));
}

#[test]
fn malformed_lines_are_skipped() {
    let root = populate_words_set(&lines(&[
        ",9",
        "bad",
        "x,12a",
        "z, 4",
        "q,4 ",
        "v,4294967296",
        "u,",
        "m,-1",
        "n,+",
        "",
        "a,b,3",
        "ok,1",
    ])).0;
    for word in ["", "bad", "x", "z", "q", "v", "u", "m", "n", "a", "a,b"] {
        assert_eq!(root.check(word), None, "{}", word);
    }
    assert_eq!(root.check("ok"), Some(1));
}

#[test]
fn scores_at_the_edge_of_32_bits() {
    let root = populate_words_set(&lines(&[
        "w,4294967295",
        "y,+3",
        "p,000000000000000000004294967295",
        "o,99999999999999999999999999",
    ])).0;
    assert_eq!(root.check("w"), Some(u32::MAX));
    assert_eq!(root.check("y"), Some(3));
    assert_eq!(root.check("p"), Some(u32::MAX));
    assert_eq!(root.check("o"), None);
}

#[test]
fn keys_outside_the_alphabet_are_kept() {
    let root = populate_words_set(&lines(&["don't,5", "naïve,3", "The,2", "z{,1", "`a,4"])).0;
    assert_eq!(root.check("don't"), Some(5));
    assert_eq!(root.check("naïve"), Some(3));
    assert_eq!(root.check("The"), Some(2));
    assert_eq!(root.check("the"), None);
    assert_eq!(root.check("z{"), Some(1));
    assert_eq!(root.check("`a"), Some(4));
    assert_eq!(root.check("dont"), None);
    assert_eq!(root.check("naive"), None);
}

#[test]
fn building_counts_the_new_words() {
    let mut root = Node::new();
    assert_eq!(root.build(&lines(&["the,5", "the,9", "bad", "a,1"])), 2);
    assert_eq!(root.build(&lines(&["the,50", "then,1", "a,0", ",4", "b,7"])), 2);
    assert_eq!(root.build(&Vec::new()), 0);
    let (_, words) = populate_words_set(&lines(&["the,5", "tie,6", "the,7"]));
    assert_eq!(words, 2);
}

#[test]
fn building_goes_on_from_what_is_there() {
    let mut root = Node::new();
    root.build(&lines(&["the,5"]));
    root.build(&lines(&["then,6", "the,4"]));
    assert_eq!(root.check("the"), Some(5));
    assert_eq!(root.check("then"), Some(6));
}

#[test]
fn building_twice_gives_the_same_answers() {
    let source = lines(&["the,5", "tie,9", "the,8", "hte,1"]);
    let first = populate_words_set(&source).0;
    let second = populate_words_set(&source).0;
    for word in ["the", "tie", "hte", "t", "", "then", "xyz"] {
        assert_eq!(first.check(word), second.check(word));
    }
}

#[test]
fn many_children_under_one_node() {
    let mut source: Vec<String> = Vec::new();
    for (i, r) in "abcdefghijklmnopqrstuvwxyz".chars().enumerate() {
        source.push(format!("x{},{}", r, i));
    }
    let root = populate_words_set(&source).0;
    for (i, r) in "abcdefghijklmnopqrstuvwxyz".chars().enumerate() {
        assert_eq!(root.check(&format!("x{}", r)), Some(i as u32));
    }
    assert_eq!(root.check("x"), None);
}

#[test]
fn parse_line_splits_at_the_first_comma() {
    assert_eq!(parse_line("the,1000"), Some((String::from("the"), 1000)));
    assert_eq!(parse_line("a b,7"), Some((String::from("a b"), 7)));
    assert_eq!(parse_line("the,10,5"), None);
    assert_eq!(parse_line(",5"), None);
    assert_eq!(parse_line("the"), None);
    assert_eq!(parse_line("the,"), None);
    assert_eq!(parse_line(""), None);
    assert_eq!(parse_line("é,2"), Some((String::from("é"), 2)));
}

#[test]
fn parse_score_field_reads_decimal_numbers() {
    assert_eq!(parse_score_field("0"), Some(0));
    assert_eq!(parse_score_field("42"), Some(42));
    assert_eq!(parse_score_field("+42"), Some(42));
    assert_eq!(parse_score_field("007"), Some(7));
    assert_eq!(parse_score_field("4294967295"), Some(4294967295));
    assert_eq!(parse_score_field("4294967296"), None);
    assert_eq!(parse_score_field(""), None);
    assert_eq!(parse_score_field("+"), None);
    assert_eq!(parse_score_field("++1"), None);
    assert_eq!(parse_score_field("-1"), None);
    assert_eq!(parse_score_field("1 "), None);
    assert_eq!(parse_score_field(" 1"), None);
    assert_eq!(parse_score_field("1e3"), None);
    assert_eq!(parse_score_field("٣"), None);
}

#[test]
fn parse_score_field_agrees_with_the_standard_parser() {
    for field in ["0", "42", "+42", "007", "4294967295", "4294967296", "", "+", "-1", "1 ", "12a", "+0"] {
        assert_eq!(parse_score_field(field), field.parse::<u32>().ok(), "{:?}", field);
    }
}

#[test]
fn loading_the_same_lines_again_changes_nothing() {
    let source = lines(&["the,5", "tie,9", "the,8", "bad", "hte,1", "tie,2"]);
    let mut root = Node::new();
    assert_eq!(root.build(&source), 3);
    let before: Vec<Option<u32>> = ["the", "tie", "hte", "bad", "t", ""]
        .iter()
        .map(|w| root.check(w))
        .collect();
    assert_eq!(before, [Some(8), Some(9), Some(1), None, None, None]);
    assert_eq!(root.build(&source), 0);
    let after: Vec<Option<u32>> = ["the", "tie", "hte", "bad", "t", ""]
        .iter()
        .map(|w| root.check(w))
        .collect();
    assert_eq!(before, after);
}
