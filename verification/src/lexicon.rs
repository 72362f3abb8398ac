//! The textual lexicon: one `key,score` entry per line.

use vstd::prelude::*;

verus! {

/// The character that separates a key from its score.
pub const DELIM: char = ',';

/// Index of the first delimiter of `line` at or after `from`, or the length of
/// `line` when there is none.
pub open spec fn delim_pos(line: Seq<char>, from: int) -> int
    decreases line.len() - from,
{
    if from < 0 || from >= line.len() {
        line.len() as int
    } else if line[from] == DELIM {
        from
    } else {
        delim_pos(line, from + 1)
    }
}

/// Whether `c` is an ASCII decimal digit.
pub open spec fn is_digit(c: char) -> bool {
    '0' <= c && c <= '9'
}

/// Whether every character of `s` is a decimal digit.
pub open spec fn all_digits(s: Seq<char>) -> bool {
    forall|i: int| 0 <= i < s.len() ==> is_digit(#[trigger] s[i])
}

/// The number that a string of decimal digits denotes.
pub open spec fn decimal_value(s: Seq<char>) -> nat
    decreases s.len(),
{
    if s.len() == 0 {
        0
    } else {
        (decimal_value(s.drop_last()) * 10 + (s.last() as int - '0' as int)) as nat
    }
}

/// The digits of a score field: the field itself, without one leading `+`.
pub open spec fn score_digits(field: Seq<char>) -> Seq<char> {
    if field.len() > 0 && field[0] == '+' {
        field.skip(1)
    } else {
        field
    }
}

/// The score that a field denotes: a non-empty run of decimal digits, after
/// an optional `+`, whose value fits in 32 bits.
pub open spec fn parse_score(field: Seq<char>) -> Option<u32> {
    let digits = score_digits(field);
    if digits.len() > 0 && all_digits(digits) && decimal_value(digits) <= u32::MAX {
        Some(decimal_value(digits) as u32)
    } else {
        None
    }
}

/// The entry that a line denotes, if it is well formed: a non-empty key, the
/// first delimiter, and a score.
pub open spec fn parse_entry(line: Seq<char>) -> Option<(Seq<char>, u32)> {
    let cut = delim_pos(line, 0);
    if cut == 0 || cut >= line.len() {
        None
    } else {
        match parse_score(line.skip(cut + 1)) {
            Some(score) => Some((line.take(cut), score)),
            None => None,
        }
    }
}

/// A lexicon after one more entry: the larger score of a key is kept.
pub open spec fn absorb(lex: Map<Seq<char>, u32>, key: Seq<char>, score: u32) -> Map<
    Seq<char>,
    u32,
> {
    if lex.contains_key(key) && lex[key] >= score {
        lex
    } else {
        lex.insert(key, score)
    }
}

/// A lexicon after one more line: malformed lines change nothing.
pub open spec fn absorb_line(lex: Map<Seq<char>, u32>, line: Seq<char>) -> Map<Seq<char>, u32> {
    match parse_entry(line) {
        Some(entry) => absorb(lex, entry.0, entry.1),
        None => lex,
    }
}

/// A lexicon after a run of lines, taken in order.
pub open spec fn absorb_lines(lex: Map<Seq<char>, u32>, lines: Seq<Seq<char>>) -> Map<
    Seq<char>,
    u32,
>
    decreases lines.len(),
{
    if lines.len() == 0 {
        lex
    } else {
        absorb_line(absorb_lines(lex, lines.drop_last()), lines.last())
    }
}

/// The lexicon that a run of lines denotes.
pub open spec fn lexicon_of(lines: Seq<Seq<char>>) -> Map<Seq<char>, u32> {
    absorb_lines(Map::empty(), lines)
}

/// The views of a run of lines.
pub open spec fn line_views(lines: Seq<String>) -> Seq<Seq<char>> {
    lines.map_values(|l: String| l@)
}

/// Whether `line` is an entry for `key`.
pub open spec fn is_entry_for(line: Seq<char>, key: Seq<char>) -> bool {
    match parse_entry(line) {
        Some(e) => e.0 == key,
        None => false,
    }
}

/// Whether some line of `lines` is an entry for `key`.
pub open spec fn mentions(lines: Seq<Seq<char>>, key: Seq<char>) -> bool {
    exists|i: int| 0 <= i < lines.len() && #[trigger] is_entry_for(lines[i], key)
}

/// Whether some line of `lines` is the entry of `key` with `score`.
pub open spec fn has_entry(lines: Seq<Seq<char>>, key: Seq<char>, score: u32) -> bool {
    exists|i: int| 0 <= i < lines.len() && #[trigger] parse_entry(lines[i]) == Some((key, score))
}

/// Whether no line of `lines` gives `key` a score above `score`.
pub open spec fn none_higher(lines: Seq<Seq<char>>, key: Seq<char>, score: u32) -> bool {
    forall|j: int|
        0 <= j < lines.len() ==> match #[trigger] parse_entry(lines[j]) {
            Some(e) => e.0 == key ==> e.1 <= score,
            None => true,
        }
}

/// The lexicon of a run of lines holds a key exactly when some line is an
/// entry for it, and then with a score that some line gives and none exceeds.
pub proof fn lemma_lexicon_entries(lines: Seq<Seq<char>>, key: Seq<char>)
    ensures
        lexicon_of(lines).contains_key(key) <==> mentions(lines, key),
        lexicon_of(lines).contains_key(key) ==> has_entry(lines, key, lexicon_of(lines)[key])
            && none_higher(lines, key, lexicon_of(lines)[key]),
    decreases lines.len(),
{
    if lines.len() > 0 {
        let head = lines.drop_last();
        let last = lines.last();
        let held = lexicon_of(head);
        let grown = lexicon_of(lines);
        lemma_lexicon_entries(head, key);
        assert(grown == absorb_line(held, last));
        assert forall|i: int| 0 <= i < head.len() implies head[i] == lines[i] by {}
        if mentions(head, key) {
            let i = choose|i: int| 0 <= i < head.len() && #[trigger] is_entry_for(head[i], key);
            assert(is_entry_for(lines[i], key));
        }
        if mentions(lines, key) {
            let i = choose|i: int| 0 <= i < lines.len() && #[trigger] is_entry_for(lines[i], key);
            if i < head.len() {
                assert(is_entry_for(head[i], key));
            }
        }
        assert(parse_entry(lines[lines.len() - 1]) == parse_entry(last));
        if is_entry_for(last, key) {
            assert(is_entry_for(lines[lines.len() - 1], key));
        }
        if grown.contains_key(key) {
            let top = grown[key];
            if held.contains_key(key) && held[key] == top {
                let i = choose|i: int|
                    0 <= i < head.len() && #[trigger] parse_entry(head[i]) == Some((key, top));
                assert(parse_entry(lines[i]) == Some((key, top)));
            } else {
                assert(parse_entry(lines[lines.len() - 1]) == Some((key, top)));
            }
            assert forall|j: int| 0 <= j < lines.len() implies match #[trigger] parse_entry(
                lines[j],
            ) {
                Some(e) => e.0 == key ==> e.1 <= top,
                None => true,
            } by {
                if j < head.len() {
                    assert(parse_entry(head[j]) == parse_entry(lines[j]));
                    if is_entry_for(head[j], key) {
                        assert(mentions(head, key));
                    }
                }
            }
        }
    }
}

/// The lexicon of a run of lines holds `key` with `score` exactly when some
/// line gives the key that score and no line gives it a higher one.
pub proof fn lemma_lexicon_keeps_top_score(lines: Seq<Seq<char>>, key: Seq<char>, score: u32)
    ensures
        (lexicon_of(lines).contains_key(key) && lexicon_of(lines)[key] == score) <==> (has_entry(
            lines,
            key,
            score,
        ) && none_higher(lines, key, score)),
{
    lemma_lexicon_entries(lines, key);
    if has_entry(lines, key, score) && none_higher(lines, key, score) {
        let i = choose|i: int|
            0 <= i < lines.len() && #[trigger] parse_entry(lines[i]) == Some((key, score));
        assert(is_entry_for(lines[i], key));
        let top = lexicon_of(lines)[key];
        let j = choose|j: int|
            0 <= j < lines.len() && #[trigger] parse_entry(lines[j]) == Some((key, top));
        assert(top <= score);
        assert(score <= top);
    }
}

/// Whether a lexicon holds the key of every entry among `lines`, with a
/// score that is no lower than the entry's.
pub open spec fn covers(lex: Map<Seq<char>, u32>, lines: Seq<Seq<char>>) -> bool {
    forall|i: int|
        0 <= i < lines.len() ==> match #[trigger] parse_entry(lines[i]) {
            Some(e) => lex.contains_key(e.0) && lex[e.0] >= e.1,
            None => true,
        }
}

/// Lines that a lexicon covers leave it as it is.
pub proof fn lemma_absorb_covered(lex: Map<Seq<char>, u32>, lines: Seq<Seq<char>>)
    requires
        covers(lex, lines),
    ensures
        absorb_lines(lex, lines) == lex,
    decreases lines.len(),
{
    if lines.len() > 0 {
        let head = lines.drop_last();
        assert forall|i: int| 0 <= i < head.len() implies match #[trigger] parse_entry(head[i]) {
            Some(e) => lex.contains_key(e.0) && lex[e.0] >= e.1,
            None => true,
        } by {
            assert(head[i] == lines[i]);
        }
        lemma_absorb_covered(lex, head);
        assert(parse_entry(lines[lines.len() - 1]) == parse_entry(lines.last()));
    }
}

/// The lexicon of a run of lines covers them.
pub proof fn lemma_lexicon_covers(lines: Seq<Seq<char>>)
    ensures
        covers(lexicon_of(lines), lines),
{
    let lex = lexicon_of(lines);
    assert forall|i: int| 0 <= i < lines.len() implies match #[trigger] parse_entry(lines[i]) {
        Some(e) => lex.contains_key(e.0) && lex[e.0] >= e.1,
        None => true,
    } by {
        match parse_entry(lines[i]) {
            Some(e) => {
                lemma_lexicon_entries(lines, e.0);
                assert(is_entry_for(lines[i], e.0));
            },
            None => {},
        }
    }
}

/// Loading is idempotent: the lines that a lexicon was made of, taken in
/// once more, change nothing.
pub proof fn lemma_load_idempotent(lines: Seq<Seq<char>>)
    ensures
        absorb_lines(lexicon_of(lines), lines) == lexicon_of(lines),
{
    lemma_lexicon_covers(lines);
    lemma_absorb_covered(lexicon_of(lines), lines);
}

/// The value of a run of digits is at least the value of each of its prefixes.
pub proof fn lemma_decimal_value_grows(s: Seq<char>, n: int)
    requires
        0 <= n <= s.len(),
        all_digits(s),
    ensures
        decimal_value(s.take(n)) <= decimal_value(s),
    decreases s.len() - n,
{
    if n == s.len() {
        assert(s.take(n) == s);
    } else {
        lemma_decimal_value_grows(s, n + 1);
        assert(s.take(n + 1).drop_last() == s.take(n));
        assert(is_digit(s[n]));
        assert(s.take(n + 1).last() == s[n]);
    }
}

/// Reads a score field.
pub fn parse_score_field(field: &str) -> (score: Option<u32>)
    ensures
        score == parse_score(field@),
{
    let len = field.unicode_len();
    let start: usize = if len > 0 && field.get_char(0) == '+' {
        1
    } else {
        0
    };
    if start == len {
        return None;
    }
    let ghost digits = score_digits(field@);
    assert(digits == field@.skip(start as int));
    let mut value: u64 = 0;
    let mut i: usize = start;
    while i < len
        invariant
            start <= i <= len,
            len == field@.len(),
            digits == field@.skip(start as int),
            digits == score_digits(field@),
            all_digits(digits.take(i - start)),
            value == decimal_value(digits.take(i - start)),
            value <= u32::MAX,
        decreases len - i,
    {
        let c = field.get_char(i);
        assert(digits[i - start] == c);
        if c < '0' || c > '9' {
            assert(!is_digit(digits[i - start]));
            return None;
        }
        let digit: u64 = (c as u32 - '0' as u32) as u64;
        let ghost prefix = digits.take(i - start + 1);
        assert(prefix.drop_last() == digits.take(i - start));
        assert(prefix.last() == c);
        assert forall|j: int| 0 <= j < prefix.len() implies is_digit(#[trigger] prefix[j]) by {
            if j < i - start {
                assert(digits.take(i - start)[j] == prefix[j]);
            }
        }
        value = value * 10 + digit;
        if value > 0xffff_ffff {
            proof {
                if all_digits(digits) {
                    lemma_decimal_value_grows(digits, i - start + 1);
                    assert(decimal_value(prefix) == value);
                }
            }
            return None;
        }
        i += 1;
    }
    assert(digits.take(len - start) == digits);
    Some(value as u32)
}

/// Reads one line of a lexicon.
pub fn parse_line(line: &str) -> (entry: Option<(String, u32)>)
    ensures
        match entry {
            Some(e) => parse_entry(line@) == Some((e.0@, e.1)) && e.0@.len() > 0,
            None => parse_entry(line@) is None,
        },
{
    let len = line.unicode_len();
    let mut cut: usize = 0;
    while cut < len && line.get_char(cut) != DELIM
        invariant
            cut <= len,
            len == line@.len(),
            delim_pos(line@, 0) == delim_pos(line@, cut as int),
        decreases len - cut,
    {
        cut += 1;
    }
    if cut == 0 || cut >= len {
        return None;
    }
    match parse_score_field(line.substring_char(cut + 1, len)) {
        Some(score) => {
            let key = line.substring_char(0, cut).to_owned();
            assert(line@.subrange(0, cut as int) == line@.take(cut as int));
            assert(line@.subrange(cut + 1, len as int) == line@.skip(cut + 1));
            Some((key, score))
        },
        None => {
            assert(line@.subrange(cut + 1, len as int) == line@.skip(cut + 1));
            None
        },
    }
}

} // verus!
