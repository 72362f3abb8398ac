use auto_correct::common::check_bit;
use auto_correct::common::del_tran;
use auto_correct::common::get_char_set;
use auto_correct::common::ins_repl;
use auto_correct::common::mark_bit;
use auto_correct::config::SupportedLocale;

fn edit(word: &str, marker: u32) -> (String, u32) {
    (String::from(word), marker)
}

#[test]
fn ins_repl_of_two_letters() {
    let edits = ins_repl("ab", 0);
    assert_eq!(edits.len(), 127);
    assert_eq!(edits[0..3], [edit("aab", 1), edit("aba", 4), edit("aa", 0)]);
    assert_eq!(
        edits[3..7],
        [edit("bab", 1), edit("abb", 2), edit("bb", 0), edit("abb", 4)]
    );
    assert_eq!(
        edits[7..12],
        [
            edit("cab", 1),
            edit("acb", 2),
            edit("cb", 0),
            edit("abc", 4),
            edit("ac", 0)
        ]
    );
    assert_eq!(edits[126], edit("az", 0));
}

#[test]
fn ins_repl_skips_the_repeat_before_the_last_letter() {
    let edits = ins_repl("tets", 0);
    let words: Vec<&str> = edits.iter().map(|e| e.0.as_str()).collect();
    assert!(!words.contains(&"tess"));
    assert!(words.contains(&"tetss"));
    assert!(words.contains(&"tetz"));
    assert!(words.contains(&"tezs"));
    assert!(!words.contains(&"test"));
    assert_eq!(words.iter().filter(|w| **w == "tetss").count(), 1);
}

#[test]
fn ins_repl_leaves_marked_positions_alone() {
    let edits = ins_repl("ab", 0b111);
    assert!(edits.is_empty());
    let edits = ins_repl("ab", 0b001);
    assert_eq!(edits[0], edit("aba", 0b101));
    assert_eq!(edits[1], edit("aa", 0b001));
    assert_eq!(edits[2], edit("abb", 0b011));
    assert!(edits.iter().all(|e| e.1 & 1 == 1));
    assert!(edits.iter().all(|e| e.0 != "bab" && e.0 != "cab"));
}

#[test]
fn ins_repl_of_nothing_is_each_rune() {
    let edits = ins_repl("", 0);
    assert_eq!(edits.len(), 26);
    assert_eq!(edits[0], edit("a", 1));
    assert_eq!(edits[25], edit("z", 1));
}

#[test]
fn ins_repl_of_one_letter() {
    let edits = ins_repl("a", 0);
    assert_eq!(edits[0], edit("aa", 1));
    assert_eq!(edits[1], edit("ba", 1));
    assert_eq!(edits[2], edit("ab", 2));
    assert_eq!(edits[3], edit("b", 0));
    assert_eq!(edits.len(), 1 + 25 * 3);
}

#[test]
fn del_tran_of_two_letters() {
    assert_eq!(
        del_tran("ab", 9),
        vec![edit("b", 9), edit("ba", 9), edit("a", 9)]
    );
}

#[test]
fn del_tran_skips_equal_neighbours() {
    assert_eq!(
        del_tran("aab", 0),
        vec![edit("ab", 0), edit("aba", 0), edit("aa", 0)]
    );
    assert_eq!(del_tran("aa", 0), vec![edit("a", 0)]);
}

#[test]
fn del_tran_of_short_words() {
    assert_eq!(del_tran("", 0), Vec::<(String, u32)>::new());
    assert_eq!(del_tran("a", 3), vec![edit("", 3)]);
}

#[test]
fn del_tran_of_teh() {
    assert_eq!(
        del_tran("teh", 0),
        vec![
            edit("eh", 0),
            edit("eth", 0),
            edit("th", 0),
            edit("the", 0),
            edit("te", 0)
        ]
    );
}

#[test]
fn edits_keep_characters_outside_the_alphabet() {
    let edits = del_tran("é-b", 0);
    assert_eq!(
        edits,
        vec![
            edit("-b", 0),
            edit("-éb", 0),
            edit("éb", 0),
            edit("éb-", 0),
            edit("é-", 0)
        ]
    );
    let edits = ins_repl("é", 0);
    assert_eq!(edits[0], edit("aé", 1));
    assert_eq!(edits[1], edit("éa", 2));
    assert_eq!(edits[2], edit("a", 0));
}

#[test]
fn mark_bit_sets_and_shifts() {
    assert_eq!(mark_bit(0b101, 1, true), 0b1011);
    assert_eq!(mark_bit(0b101, 0, true), 0b101);
    assert_eq!(mark_bit(0b100, 0, true), 0b101);
    assert_eq!(mark_bit(0, 31, true), 0x8000_0000);
    assert_eq!(mark_bit(0x8000_0000, 5, true), 32);
    assert_eq!(mark_bit(0x4000_0000, 5, true), 0x8000_0020);
    assert_eq!(mark_bit(7, 32, true), 7);
    assert_eq!(mark_bit(7, 1000, false), 7);
    assert_eq!(mark_bit(0b100, 1, false), 0b110);
    assert_eq!(mark_bit(0b110, 1, false), 0b110);
    assert_eq!(mark_bit(0xffff_ffff, 30, true), 0xffff_ffff);
    assert_eq!(mark_bit(0b1111, 2, true), 0b11111);
    assert_eq!(mark_bit(0b1001, 2, true), 0b10101);
}

#[test]
fn check_bit_reads_the_first_32_positions() {
    assert!(check_bit(0b100, 2));
    assert!(!check_bit(0b100, 1));
    assert!(check_bit(0x8000_0000, 31));
    assert!(!check_bit(0xffff_ffff, 32));
    assert!(!check_bit(0xffff_ffff, 64));
    assert!(!check_bit(0, 0));
}

#[test]
fn char_set_is_the_alphabet() {
    let runes: String = get_char_set(SupportedLocale::EnUs).into_iter().collect();
    assert_eq!(runes, "abcdefghijklmnopqrstuvwxyz");
}
