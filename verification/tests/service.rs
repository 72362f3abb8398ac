use auto_correct::candidate::Candidate;
use auto_correct::config::AutoCorrectConfig;
use auto_correct::config::Config;
use auto_correct::config::RunMode;
use auto_correct::config::SupportedLocale;
use auto_correct::dynamic::populate_words_set;
use auto_correct::dynamic::search;
use auto_correct::AutoCorrect;
use auto_correct::ServiceUtils;
use std::sync::mpsc;

const ALPHABET: &str = "abcdefghijklmnopqrstuvwxyz";

/// A lexicon with exactly 360 words within two edits of "tets", one word
/// within two edits of "wahtabout", and words that are far from both.
fn lexicon() -> Vec<String> {
    let mut lines: Vec<String> = Vec::new();
    let mut score: u32 = 1;
    let mut add = |word: String, lines: &mut Vec<String>| {
        lines.push(format!("{},{}", word, score));
        score += 1;
    };
    add(String::from("tets"), &mut lines);
    for r in ALPHABET.chars() {
        if r != 't' {
            add(format!("{}ets", r), &mut lines);
        }
        if r != 'e' {
            add(format!("t{}ts", r), &mut lines);
        }
        if r != 's' {
            add(format!("tet{}", r), &mut lines);
        }
        add(format!("tets{}", r), &mut lines);
        add(format!("{}tets", r), &mut lines);
    }
    let mut doubles = 0;
    for first in ALPHABET.chars() {
        for last in ALPHABET.chars() {
            if first != 't' && last != 's' && doubles < 232 {
                add(format!("{}et{}", first, last), &mut lines);
                doubles += 1;
            }
        }
    }
    add(String::from("whatabout"), &mut lines);
    add(String::from("zzzzzzzz"), &mut lines);
    add(String::from("hello"), &mut lines);
    add(String::from("tetsabc"), &mut lines);
    add(String::from("abctets"), &mut lines);
    lines
}

fn lines(raw: &[&str]) -> Vec<String> {
    raw.iter().map(|l| String::from(*l)).collect()
}

fn service(max_edit: u8) -> AutoCorrect {
    let mut service = AutoCorrect::new();
    service.init_dict(&lexicon());
    service.set_max_edit(max_edit);
    service
}

fn service_of(raw: &[&str], max_edit: u8) -> AutoCorrect {
    let mut service = AutoCorrect::new();
    service.init_dict(&lines(raw));
    service.set_max_edit(max_edit);
    service
}

fn triples(found: &[Candidate]) -> Vec<(&str, u32, u8)> {
    found
        .iter()
        .map(|c| (c.word.as_str(), c.score, c.edit))
        .collect()
}

#[test]
fn init_test() {
    let mut source: Vec<String> = Vec::new();
    for i in 0..5464u32 {
        let mut word = String::new();
        let mut n = i;
        loop {
            word.push((b'a' + (n % 26) as u8) as char);
            n /= 26;
            if n == 0 {
                break;
            }
        }
        source.push(format!("{},{}", word, i));
        if i % 7 == 0 {
            source.push(format!("{},{}", word, i / 2));
            source.push(format!("{},x", word));
        }
    }
    let mut service = AutoCorrect::new();
    assert_eq!(service.dict_size(), 0);
    service.init_dict(&source);
    let size = service.dict_size();
    assert_eq!(size, 5464);
    service.set_max_edit(3);
    assert_eq!(service.dict_size(), 5464);
    service.set_run_mode(RunMode::SpeedSensitive);
    assert_eq!(service.dict_size(), 0);
}

#[test]
fn base() {
    let service = service(2);
    assert_eq!(service.candidates(String::from("tets")).len(), 360usize);
}

#[test]
fn long() {
    let service = service(2);
    assert_eq!(service.candidates(String::from("wahtabout")).len(), 1usize);
}

#[test]
fn none() {
    let service = service(2);
    assert!(service.candidates(String::from("whataboutism")).is_empty());
}

#[test]
fn exact_word_is_found_at_distance_0() {
    let service = service_of(&["the,1000"], 1);
    let found = service.candidates(String::from("the"));
    assert_eq!(triples(&found), [("the", 1000, 0)]);
}

#[test]
fn transposed_word_is_found_at_distance_1() {
    let service = service_of(&["the,1000"], 1);
    let found = service.candidates(String::from("teh"));
    assert_eq!(triples(&found), [("the", 1000, 1)]);
}

#[test]
fn empty_input_has_no_candidates() {
    for max_edit in 1..=3 {
        let service = service(max_edit);
        assert!(service.candidates(String::new()).is_empty());
    }
    assert!(service_of(&[], 3).candidates(String::new()).is_empty());
}

#[test]
fn blank_input_has_no_candidates() {
    let service = service_of(&["a,1", "b,2", " ,3"], 3);
    assert!(service.candidates(String::from(" ")).is_empty());
    assert!(service.candidates(String::from(" \t\r\n  ")).is_empty());
    assert!(service.candidates(String::from("\u{3000}")).is_empty());
}

#[test]
fn input_is_trimmed_and_lowered() {
    let service = service_of(&["the,1000"], 1);
    assert_eq!(
        triples(&service.candidates(String::from("  THE\n"))),
        [("the", 1000, 0)]
    );
    assert_eq!(
        triples(&service.candidates(String::from("Teh"))),
        [("the", 1000, 1)]
    );
}

#[test]
fn long_input_is_searched() {
    let word = "abcdefghijklmnopqrstuvwxyzabcdefghijklmnop";
    let near = "abcdefghijklmnopqrstuvwxyzabcdefghijklmnopq";
    let far = "abcdefghijklmnopqrstuvwxyzabcdefghijklmnopqz";
    let line_near = format!("{},5", near);
    let line_far = format!("{},6", far);
    let line_word = format!("{},7", word);
    let service = service_of(&[&line_near, &line_far, &line_word], 2);
    let found = service.candidates(String::from(word));
    assert_eq!(
        triples(&found),
        [(word, 7, 0), (near, 5, 1), (far, 6, 2)]
    );
}

#[test]
fn single_edit_returns_direct_neighbours_only() {
    let source = ["the,1000", "tie,5", "then,7", "he,3", "hte,2", "thence,9", "toe,4", "e,8", "ten,6"];
    let service = service_of(&source, 1);
    let found = service.candidates(String::from("the"));
    assert_eq!(
        triples(&found),
        [
            ("the", 1000, 0),
            ("then", 7, 1),
            ("tie", 5, 1),
            ("toe", 4, 1),
            ("he", 3, 1),
            ("hte", 2, 1)
        ]
    );
    let service = service_of(&source, 2);
    let found = service.candidates(String::from("the"));
    assert_eq!(
        triples(&found),
        [
            ("the", 1000, 0),
            ("then", 7, 1),
            ("tie", 5, 1),
            ("toe", 4, 1),
            ("he", 3, 1),
            ("hte", 2, 1),
            ("e", 8, 2),
            ("ten", 6, 2)
        ]
    );
    let service = service_of(&source, 3);
    let found = service.candidates(String::from("the"));
    assert_eq!(found.len(), 9);
    assert_eq!(triples(&found)[8], ("thence", 9, 3));
}

#[test]
fn missing_lexicon_gives_no_candidates() {
    let service = AutoCorrect::new();
    assert!(service.candidates(String::from("the")).is_empty());
    let mut service = AutoCorrect::new_with_config(Config::new_with_params(
        3,
        2,
        SupportedLocale::EnUs,
        RunMode::SpeedSensitive,
        "/no/such/file",
    ));
    assert!(service.candidates(String::from("the")).is_empty());
    service.init_dict(&Vec::new());
    assert!(service.candidates(String::from("the")).is_empty());
    assert!(AutoCorrect::default().candidates(String::from("a")).is_empty());
}

#[test]
fn no_candidate_is_farther_than_max_edit() {
    for max_edit in 1..=2u8 {
        let service = service(max_edit);
        for word in ["tets", "tet", "xetz", "wahtabout", "abtets", "hell"] {
            let found = service.candidates(String::from(word));
            assert!(found.iter().all(|c| c.edit <= max_edit));
        }
    }
    let service = service(3);
    let found = service.candidates(String::from("te"));
    assert!(found.iter().any(|c| c.edit == 3));
    assert!(found.iter().all(|c| c.edit <= 3));
}

#[test]
fn no_word_is_returned_twice() {
    for (max_edit, word) in [(2, "tets"), (2, "xetz"), (2, "aets"), (2, "tetsa"), (3, "tet")] {
        let service = service(max_edit);
        let found = service.candidates(String::from(word));
        let mut words: Vec<&str> = found.iter().map(|c| c.word.as_str()).collect();
        words.sort();
        let before = words.len();
        words.dedup();
        assert_eq!(words.len(), before);
        assert!(before > 0);
    }
}

#[test]
fn candidates_come_best_first() {
    let service = service(2);
    for word in ["tets", "tet", "xetz"] {
        let found = service.candidates(String::from(word));
        assert!(found.len() > 1);
        for pair in found.windows(2) {
            let (a, b) = (&pair[0], &pair[1]);
            assert!(a.edit < b.edit || (a.edit == b.edit && a.score >= b.score));
        }
    }
}

#[test]
fn every_candidate_carries_the_score_of_the_lexicon() {
    let source = lexicon();
    let dict = populate_words_set(&source).0;
    let service = service(2);
    let found = service.candidates(String::from("tets"));
    assert_eq!(found[0].word, "tets");
    assert_eq!(found[0].edit, 0);
    for c in found.iter() {
        assert_eq!(dict.check(&c.word), Some(c.score));
    }
}

#[test]
fn first_distance_of_a_word_is_kept() {
    let service = service_of(&["ab,1", "abc,2", "abcd,3"], 3);
    let found = service.candidates(String::from("ab"));
    assert_eq!(triples(&found), [("ab", 1, 0), ("abc", 2, 1), ("abcd", 3, 2)]);
}

#[test]
fn replacement_by_the_last_letter_takes_two_edits() {
    let service = service_of(&["tess,5"], 1);
    assert!(service.candidates(String::from("tets")).is_empty());
    let service = service_of(&["tess,5"], 2);
    assert_eq!(
        triples(&service.candidates(String::from("tets"))),
        [("tess", 5, 2)]
    );
}

#[test]
fn searching_twice_gives_the_same_candidates() {
    let one = service(2);
    let first = one.candidates(String::from("tets"));
    let second = one.candidates(String::from("tets"));
    assert_eq!(triples(&first), triples(&second));
    let other = service(2);
    assert_eq!(
        triples(&first),
        triples(&other.candidates(String::from("tets")))
    );
}

#[test]
fn stream_and_list_hold_the_same_candidates() {
    let service = service(2);
    for word in ["tets", "wahtabout", "whataboutism", "", "xetz"] {
        let (tx, rx) = mpsc::channel();
        let sent = service.candidates_async(String::from(word), tx);
        let streamed: Vec<Candidate> = rx.iter().collect();
        let listed = service.candidates(String::from(word));
        assert_eq!(sent, streamed.len());
        assert_eq!(streamed.len(), listed.len());
        let mut a = triples(&streamed);
        let mut b = triples(&listed);
        a.sort();
        b.sort();
        assert_eq!(a, b);
    }
}

#[test]
fn stream_stops_when_the_receiver_is_gone() {
    let service = service(2);
    let (tx, rx) = mpsc::channel();
    drop(rx);
    assert_eq!(service.candidates_async(String::from("tets"), tx), 0);
}

#[test]
fn stream_comes_in_the_order_of_discovery() {
    let source = lines(&["the,1", "then,9", "he,5", "hen,7"]);
    let dict = populate_words_set(&source).0;
    let found = search(String::from("the"), 2, &dict);
    assert_eq!(
        triples(&found),
        [("the", 1, 0), ("then", 9, 1), ("he", 5, 1), ("hen", 7, 2)]
    );
    assert!(search(String::from("the"), 0, &dict).is_empty());
    let mut service = AutoCorrect::new();
    service.init_dict(&source);
    service.set_max_edit(2);
    let (tx, rx) = mpsc::channel();
    assert_eq!(service.candidates_async(String::from("the"), tx), 4);
    let streamed: Vec<Candidate> = rx.iter().collect();
    assert_eq!(triples(&streamed), triples(&found));
}

#[test]
fn max_edit_is_clamped_and_keeps_the_dictionary() {
    let mut service = service_of(&["the,5", "thence,6"], 1);
    assert_eq!(service.get_max_edit(), 1);
    service.set_max_edit(9);
    assert_eq!(service.get_max_edit(), 3);
    assert_eq!(service.candidates(String::from("the")).len(), 2);
    service.set_max_edit(0);
    assert_eq!(service.get_max_edit(), 1);
    assert_eq!(service.candidates(String::from("the")).len(), 1);
    service.set_pool_size(5);
    assert_eq!(service.get_pool_size(), 5);
    assert_eq!(service.candidates(String::from("the")).len(), 1);
}

#[test]
fn a_new_dictionary_path_drops_the_dictionary() {
    let mut service = service_of(&["the,5"], 1);
    assert_eq!(service.dict_path(), "./resources/en-us/freq_50k.txt");
    service.set_override_dict("./resources/en-us/freq_50k.txt");
    assert_eq!(service.get_override_dict(), "");
    assert_eq!(service.candidates(String::from("the")).len(), 1);
    service.set_override_dict("/tmp/other.txt");
    assert_eq!(service.get_override_dict(), "/tmp/other.txt");
    assert_eq!(service.dict_path(), "/tmp/other.txt");
    assert!(service.candidates(String::from("the")).is_empty());
    service.init_dict(&lines(&["the,6"]));
    assert_eq!(triples(&service.candidates(String::from("the"))), [("the", 6, 0)]);
    service.set_override_dict("/tmp/other.txt");
    assert_eq!(service.candidates(String::from("the")).len(), 1);
}

#[test]
fn a_new_run_mode_drops_the_dictionary() {
    let mut service = service_of(&["the,5"], 1);
    assert!(service.get_run_mode() == RunMode::SpaceSensitive);
    service.set_run_mode(RunMode::SpaceSensitive);
    assert_eq!(service.candidates(String::from("the")).len(), 1);
    service.set_run_mode(RunMode::SpeedSensitive);
    assert!(service.get_run_mode() == RunMode::SpeedSensitive);
    assert_eq!(service.dict_path(), "./resources/en-us/freq_50k_preproc.txt");
    assert!(service.candidates(String::from("the")).is_empty());
    assert!(service.refresh_hybrid_dict(None).is_ok());
}

#[test]
fn the_same_locale_keeps_the_dictionary() {
    let mut service = service_of(&["the,5"], 1);
    service.set_locale(SupportedLocale::EnUs);
    assert!(service.get_locale() == SupportedLocale::EnUs);
    assert_eq!(service.candidates(String::from("the")).len(), 1);
}

#[test]
fn init_dict_replaces_the_dictionary() {
    let mut service = service_of(&["the,5"], 1);
    service.init_dict(&lines(&["tie,6"]));
    assert_eq!(triples(&service.candidates(String::from("tie"))), [("tie", 6, 0)]);
    assert_eq!(triples(&service.candidates(String::from("the"))), [("tie", 6, 1)]);
}

/// The least number of insertions, deletions, replacements and
/// transpositions of neighbours that turn `a` into `b`.
fn distance(a: &[char], b: &[char]) -> usize {
    let far = a.len() + b.len();
    let mut last_row: std::collections::HashMap<char, usize> = std::collections::HashMap::new();
    let mut d = vec![vec![0usize; b.len() + 2]; a.len() + 2];
    d[0][0] = far;
    for i in 0..=a.len() {
        d[i + 1][0] = far;
        d[i + 1][1] = i;
    }
    for j in 0..=b.len() {
        d[0][j + 1] = far;
        d[1][j + 1] = j;
    }
    for i in 1..=a.len() {
        let mut last_col = 0;
        for j in 1..=b.len() {
            let k = *last_row.get(&b[j - 1]).unwrap_or(&0);
            let l = last_col;
            let cost = if a[i - 1] == b[j - 1] {
                last_col = j;
                0
            } else {
                1
            };
            let swap = d[k][l] + (i - k - 1) + 1 + (j - l - 1);
            d[i + 1][j + 1] = (d[i][j] + cost)
                .min(d[i + 1][j] + 1)
                .min(d[i][j + 1] + 1)
                .min(swap);
        }
        last_row.insert(a[i - 1], i);
    }
    d[a.len() + 1][b.len() + 1]
}

/// Every string that is one edit away from `word`, each once.
fn neighbours(word: &str) -> Vec<String> {
    let runes: Vec<char> = word.chars().collect();
    let mut all: Vec<String> = Vec::new();
    for pos in 0..=runes.len() {
        for r in ALPHABET.chars() {
            let mut inserted = runes.clone();
            inserted.insert(pos, r);
            all.push(inserted.into_iter().collect());
            if pos < runes.len() {
                let mut replaced = runes.clone();
                replaced[pos] = r;
                all.push(replaced.into_iter().collect());
            }
        }
        if pos < runes.len() {
            let mut deleted = runes.clone();
            deleted.remove(pos);
            all.push(deleted.into_iter().collect());
        }
        if pos + 1 < runes.len() {
            let mut swapped = runes.clone();
            swapped.swap(pos, pos + 1);
            all.push(swapped.into_iter().collect());
        }
    }
    all.sort();
    all.dedup();
    all.retain(|w| w != word && !w.is_empty());
    all
}

#[test]
fn distance_counts_edits() {
    let runes = |w: &str| w.chars().collect::<Vec<char>>();
    assert_eq!(distance(&runes("the"), &runes("the")), 0);
    assert_eq!(distance(&runes("teh"), &runes("the")), 1);
    assert_eq!(distance(&runes("tets"), &runes("tess")), 1);
    assert_eq!(distance(&runes("ab"), &runes("ba")), 1);
    assert_eq!(distance(&runes("abc"), &runes("ca")), 2);
    assert_eq!(distance(&runes(""), &runes("abc")), 3);
}

#[test]
fn every_neighbour_but_one_is_found() {
    for word in ["tets", "the", "aab", "a", "zz", "hello", "abcabc"] {
        let near = neighbours(word);
        let mut source: Vec<String> = near.iter().map(|w| format!("{},7", w)).collect();
        source.push(format!("{},9", word));
        let mut service = AutoCorrect::new();
        service.init_dict(&source);
        let found = service.candidates(String::from(word));
        let runes: Vec<char> = word.chars().collect();
        let skipped: Option<String> = if runes.len() > 2 && runes[runes.len() - 2] != runes[runes.len() - 1] {
            let mut other = runes.clone();
            other[runes.len() - 2] = runes[runes.len() - 1];
            Some(other.into_iter().collect())
        } else {
            None
        };
        let mut expected: Vec<&str> = near
            .iter()
            .map(|w| w.as_str())
            .filter(|w| Some(*w) != skipped.as_deref())
            .collect();
        expected.sort();
        assert_eq!(triples(&found)[0], (word, 9, 0));
        let mut words: Vec<&str> = found[1..].iter().map(|c| c.word.as_str()).collect();
        words.sort();
        assert_eq!(words, expected, "{}", word);
        assert!(found[1..].iter().all(|c| c.edit == 1 && c.score == 7));
    }
}

#[test]
fn no_candidate_is_nearer_than_it_counts() {
    for (max_edit, word) in [(2, "tets"), (2, "xetz"), (2, "hello"), (2, "wahtabout"), (3, "tes")] {
        let service = service(max_edit);
        let from: Vec<char> = word.chars().collect();
        let found = service.candidates(String::from(word));
        assert!(!found.is_empty());
        for c in found.iter() {
            let to: Vec<char> = c.word.chars().collect();
            assert!(distance(&from, &to) <= c.edit as usize, "{} {}", word, c.word);
        }
    }
}

#[test]
fn exact_match_is_first_and_alone_at_distance_0() {
    for max_edit in 1..=3u8 {
        let service = service_of(&["the,1", "then,900", "he,500", "teh,700", "eth,800"], max_edit);
        for word in ["the", " The ", "teh", "then"] {
            let clean = word.trim().to_lowercase();
            let found = service.candidates(String::from(word));
            assert_eq!(found[0].word, clean);
            assert_eq!(found[0].edit, 0);
            assert!(found[1..].iter().all(|c| c.edit > 0));
        }
        let found = service.candidates(String::from("thee"));
        assert!(!found.is_empty());
        assert!(found.iter().all(|c| c.edit > 0));
    }
}

#[test]
fn tabs_and_line_ends_are_blank() {
    let service = service_of(&["a,1", "b,2"], 2);
    for word in [" ", "\t", "\n", "\u{b}", "\u{c}", "\r", " \t\n\u{b}\u{c}\r "] {
        assert!(service.candidates(String::from(word)).is_empty());
    }
    assert_eq!(service.candidates(String::from("\ta\r\n"))[0].word, "a");
}
