//! The edit generator: every string that one insertion, replacement,
//! deletion or transposition away from a word, each with the redundancy
//! marker that its descendants carry.

use crate::config::SupportedLocale;
use crate::support::alphabet;
use crate::support::char_code;
use crate::support::is_alphabet;
use crate::support::lemma_code_rune;
use crate::support::lemma_rune_code;
use crate::support::rune_at;
use crate::support::rune_of_code;
use crate::support::ALPHABET_SIZE;
use vstd::prelude::*;

verus! {

/// Number of positions that a marker keeps track of.
pub const MARKER_BITS: usize = 32;

/// Whether the marker holds position `pos`. Positions from 32 on are not
/// tracked.
pub open spec fn marked(marker: u32, pos: int) -> bool {
    0 <= pos < 32 && marker & (1u32 << (pos as u32)) != 0
}

/// The marker after position `pos` was taken: the bit of `pos` is set. With
/// `insert` the bits above `pos` move up by one first, to follow the
/// characters that the insertion moved; at the two ends of the marker nothing
/// moves. Positions from 32 on leave the marker as it is.
pub open spec fn mark_bit_spec(source: u32, pos: int, insert: bool) -> u32 {
    if pos < 0 || pos >= 32 {
        source
    } else if !insert || pos == 0 || pos == 31 {
        source | (1u32 << (pos as u32))
    } else {
        ((source >> (pos as u32)) << ((pos + 1) as u32)) | (1u32 << (pos as u32)) | ((source << ((32
            - pos) as u32)) >> ((32 - pos) as u32))
    }
}

/// `word` with `rune` put in front of position `pos`.
pub open spec fn insert_at(word: Seq<char>, pos: int, rune: char) -> Seq<char> {
    word.take(pos).push(rune) + word.skip(pos)
}

/// `word` with `rune` in place of the character before position `pos`.
pub open spec fn replace_at(word: Seq<char>, pos: int, rune: char) -> Seq<char> {
    word.take(pos - 1).push(rune) + word.skip(pos)
}

/// `word` without the character before position `pos`.
pub open spec fn delete_at(word: Seq<char>, pos: int) -> Seq<char> {
    word.take(pos - 1) + word.skip(pos)
}

/// `word` with the characters on both sides of position `pos` exchanged.
pub open spec fn transpose_at(word: Seq<char>, pos: int) -> Seq<char> {
    word.take(pos - 1).push(word[pos]).push(word[pos - 1]) + word.skip(pos + 1)
}

/// The insertion and the replacement of `rune` at position `pos`, unless the
/// marker holds the position or another position yields the same string.
pub open spec fn ins_repl_at(word: Seq<char>, marker: u32, rune: char, pos: int) -> Seq<
    (Seq<char>, u32),
> {
    if marked(marker, pos) {
        seq![]
    } else if pos == 0 {
        seq![(insert_at(word, 0, rune), mark_bit_spec(marker, 0, true))]
    } else if pos == 1 && rune == word[0] {
        seq![]
    } else if word.len() > 2 && pos == word.len() - 1 && rune == word[pos] {
        seq![]
    } else if rune != word[pos - 1] {
        seq![
            (insert_at(word, pos, rune), mark_bit_spec(marker, pos, true)),
            (replace_at(word, pos, rune), marker),
        ]
    } else {
        seq![(insert_at(word, pos, rune), mark_bit_spec(marker, pos, true))]
    }
}

/// The insertions and replacements of `rune` at the positions below `upto`.
pub open spec fn ins_repl_row(word: Seq<char>, marker: u32, rune: char, upto: int) -> Seq<
    (Seq<char>, u32),
>
    decreases upto,
{
    if upto <= 0 {
        seq![]
    } else {
        ins_repl_row(word, marker, rune, upto - 1) + ins_repl_at(word, marker, rune, upto - 1)
    }
}

/// The insertions and replacements of the first `runes` runes of the
/// alphabet, at every position of `word`.
pub open spec fn ins_repl_rows(word: Seq<char>, marker: u32, runes: int) -> Seq<(Seq<char>, u32)>
    decreases runes,
{
    if runes <= 0 {
        seq![]
    } else {
        ins_repl_rows(word, marker, runes - 1) + ins_repl_row(
            word,
            marker,
            rune_at(runes - 1),
            word.len() as int + 1,
        )
    }
}

/// Every insertion and replacement on `word`: rune by rune through the
/// alphabet, and for each rune position by position.
pub open spec fn ins_repl_spec(word: Seq<char>, marker: u32) -> Seq<(Seq<char>, u32)> {
    ins_repl_rows(word, marker, 26)
}

/// The deletion and the transposition at position `pos`, unless the
/// characters on both sides of it are the same.
pub open spec fn del_tran_at(word: Seq<char>, marker: u32, pos: int) -> Seq<(Seq<char>, u32)> {
    if pos < word.len() && word[pos - 1] == word[pos] {
        seq![]
    } else if pos < word.len() {
        seq![(delete_at(word, pos), marker), (transpose_at(word, pos), marker)]
    } else {
        seq![(delete_at(word, pos), marker)]
    }
}

/// The deletions and transpositions at the positions from 1 to `upto`.
pub open spec fn del_tran_upto(word: Seq<char>, marker: u32, upto: int) -> Seq<(Seq<char>, u32)>
    decreases upto,
{
    if upto <= 0 {
        seq![]
    } else {
        del_tran_upto(word, marker, upto - 1) + del_tran_at(word, marker, upto)
    }
}

/// Every deletion and transposition on `word`, position by position.
pub open spec fn del_tran_spec(word: Seq<char>, marker: u32) -> Seq<(Seq<char>, u32)> {
    del_tran_upto(word, marker, word.len() as int)
}

/// Every edit of `word`: the insertions and replacements, then the deletions
/// and transpositions.
pub open spec fn edits_of(word: Seq<char>, marker: u32) -> Seq<(Seq<char>, u32)> {
    ins_repl_spec(word, marker) + del_tran_spec(word, marker)
}

/// The views of a run of edits.
pub open spec fn edit_views(edits: Seq<(String, u32)>) -> Seq<(Seq<char>, u32)> {
    edits.map_values(|e: (String, u32)| (e.0@, e.1))
}

/// `other` is `word` with one alphabet rune inserted.
pub open spec fn is_insertion(word: Seq<char>, other: Seq<char>) -> bool {
    exists|pos: int, rune: char|
        0 <= pos <= word.len() && is_alphabet(rune) && other == #[trigger] insert_at(
            word,
            pos,
            rune,
        )
}

/// `other` is `word` with one character replaced by an alphabet rune.
pub open spec fn is_replacement(word: Seq<char>, other: Seq<char>) -> bool {
    exists|pos: int, rune: char|
        1 <= pos <= word.len() && is_alphabet(rune) && other == #[trigger] replace_at(
            word,
            pos,
            rune,
        )
}

/// `other` is `word` without one of its characters.
pub open spec fn is_deletion(word: Seq<char>, other: Seq<char>) -> bool {
    exists|pos: int| 1 <= pos <= word.len() && other == #[trigger] delete_at(word, pos)
}

/// `other` is `word` with two adjacent characters exchanged.
pub open spec fn is_transposition(word: Seq<char>, other: Seq<char>) -> bool {
    exists|pos: int| 1 <= pos < word.len() && other == #[trigger] transpose_at(word, pos)
}

/// `other` is one edit away from `word`.
pub open spec fn is_neighbor(word: Seq<char>, other: Seq<char>) -> bool {
    ||| is_insertion(word, other)
    ||| is_replacement(word, other)
    ||| is_deletion(word, other)
    ||| is_transposition(word, other)
}

/// The one replacement that the generator leaves out: in a word of more than
/// two characters, the last character in place of the one before it.
pub open spec fn is_skipped_replacement(word: Seq<char>, other: Seq<char>) -> bool {
    word.len() > 2 && other == replace_at(word, word.len() - 1, word[word.len() - 1])
}

/// Whether a run of edits holds the string `other`.
pub open spec fn carries(edits: Seq<(Seq<char>, u32)>, other: Seq<char>) -> bool {
    exists|k: int| 0 <= k < edits.len() && (#[trigger] edits[k]).0 == other
}

/// Two runs joined hold what either of them holds.
pub proof fn lemma_carries_concat(
    first: Seq<(Seq<char>, u32)>,
    second: Seq<(Seq<char>, u32)>,
    other: Seq<char>,
)
    ensures
        carries(first + second, other) <==> (carries(first, other) || carries(second, other)),
{
    let joined = first + second;
    if carries(first, other) {
        let k = choose|k: int| 0 <= k < first.len() && (#[trigger] first[k]).0 == other;
        assert(joined[k].0 == other);
    }
    if carries(second, other) {
        let k = choose|k: int| 0 <= k < second.len() && (#[trigger] second[k]).0 == other;
        assert(joined[first.len() + k].0 == other);
    }
    if carries(joined, other) {
        let k = choose|k: int| 0 <= k < joined.len() && (#[trigger] joined[k]).0 == other;
        if k < first.len() {
            assert(first[k].0 == other);
        } else {
            assert(second[k - first.len()].0 == other);
        }
    }
}

proof fn lemma_unmarked(pos: u32)
    by (bit_vector)
    requires
        pos < 32,
    ensures
        0u32 & (1u32 << pos) == 0,
{
}

/// An empty marker holds no position.
pub proof fn lemma_empty_marker(pos: int)
    ensures
        !marked(0, pos),
{
    if 0 <= pos < 32 {
        lemma_unmarked(pos as u32);
    }
}

proof fn lemma_row_carries(
    word: Seq<char>,
    marker: u32,
    rune: char,
    upto: int,
    pos: int,
    other: Seq<char>,
)
    requires
        0 <= pos < upto,
        carries(ins_repl_at(word, marker, rune, pos), other),
    ensures
        carries(ins_repl_row(word, marker, rune, upto), other),
    decreases upto,
{
    if pos < upto - 1 {
        lemma_row_carries(word, marker, rune, upto - 1, pos, other);
    }
    lemma_carries_concat(
        ins_repl_row(word, marker, rune, upto - 1),
        ins_repl_at(word, marker, rune, upto - 1),
        other,
    );
}

proof fn lemma_rows_carry(word: Seq<char>, marker: u32, runes: int, code: int, other: Seq<char>)
    requires
        0 <= code < runes,
        carries(ins_repl_row(word, marker, rune_at(code), word.len() as int + 1), other),
    ensures
        carries(ins_repl_rows(word, marker, runes), other),
    decreases runes,
{
    if code < runes - 1 {
        lemma_rows_carry(word, marker, runes - 1, code, other);
    }
    lemma_carries_concat(
        ins_repl_rows(word, marker, runes - 1),
        ins_repl_row(word, marker, rune_at(runes - 1), word.len() as int + 1),
        other,
    );
}

proof fn lemma_upto_carries(word: Seq<char>, marker: u32, upto: int, pos: int, other: Seq<char>)
    requires
        1 <= pos <= upto,
        carries(del_tran_at(word, marker, pos), other),
    ensures
        carries(del_tran_upto(word, marker, upto), other),
    decreases upto,
{
    if pos < upto {
        lemma_upto_carries(word, marker, upto - 1, pos, other);
    }
    lemma_carries_concat(
        del_tran_upto(word, marker, upto - 1),
        del_tran_at(word, marker, upto),
        other,
    );
}

proof fn lemma_row_sound(word: Seq<char>, marker: u32, rune: char, upto: int, other: Seq<char>)
    requires
        0 <= upto <= word.len() + 1,
        is_alphabet(rune),
        carries(ins_repl_row(word, marker, rune, upto), other),
    ensures
        is_insertion(word, other) || is_replacement(word, other),
    decreases upto,
{
    if upto > 0 {
        let pos = upto - 1;
        let head = ins_repl_row(word, marker, rune, pos);
        let here = ins_repl_at(word, marker, rune, pos);
        lemma_carries_concat(head, here, other);
        if carries(head, other) {
            lemma_row_sound(word, marker, rune, pos, other);
        } else {
            let k = choose|k: int| 0 <= k < here.len() && (#[trigger] here[k]).0 == other;
            if other == insert_at(word, pos, rune) {
                assert(is_insertion(word, other));
            } else {
                assert(other == replace_at(word, pos, rune));
                assert(is_replacement(word, other));
            }
        }
    }
}

proof fn lemma_rows_sound(word: Seq<char>, marker: u32, runes: int, other: Seq<char>)
    requires
        0 <= runes <= 26,
        carries(ins_repl_rows(word, marker, runes), other),
    ensures
        is_insertion(word, other) || is_replacement(word, other),
    decreases runes,
{
    if runes > 0 {
        let head = ins_repl_rows(word, marker, runes - 1);
        let row = ins_repl_row(word, marker, rune_at(runes - 1), word.len() as int + 1);
        lemma_carries_concat(head, row, other);
        if carries(head, other) {
            lemma_rows_sound(word, marker, runes - 1, other);
        } else {
            lemma_rune_code(runes - 1);
            lemma_row_sound(word, marker, rune_at(runes - 1), word.len() as int + 1, other);
        }
    }
}

proof fn lemma_upto_sound(word: Seq<char>, marker: u32, upto: int, other: Seq<char>)
    requires
        0 <= upto <= word.len(),
        carries(del_tran_upto(word, marker, upto), other),
    ensures
        is_deletion(word, other) || is_transposition(word, other),
    decreases upto,
{
    if upto > 0 {
        let head = del_tran_upto(word, marker, upto - 1);
        let here = del_tran_at(word, marker, upto);
        lemma_carries_concat(head, here, other);
        if carries(head, other) {
            lemma_upto_sound(word, marker, upto - 1, other);
        } else {
            let k = choose|k: int| 0 <= k < here.len() && (#[trigger] here[k]).0 == other;
            if other == delete_at(word, upto) {
                assert(is_deletion(word, other));
            } else {
                assert(other == transpose_at(word, upto));
                assert(is_transposition(word, other));
            }
        }
    }
}

/// Every string that the generator makes of a word is one edit away from it.
pub proof fn lemma_edits_are_neighbors(word: Seq<char>, marker: u32, other: Seq<char>)
    requires
        carries(edits_of(word, marker), other),
    ensures
        is_neighbor(word, other),
{
    lemma_carries_concat(ins_repl_spec(word, marker), del_tran_spec(word, marker), other);
    if carries(ins_repl_spec(word, marker), other) {
        lemma_rows_sound(word, marker, 26, other);
    } else {
        lemma_upto_sound(word, marker, word.len() as int, other);
    }
}

proof fn lemma_deletion_made(word: Seq<char>, marker: u32, pos: int)
    requires
        1 <= pos <= word.len(),
    ensures
        carries(del_tran_spec(word, marker), delete_at(word, pos)),
    decreases word.len() - pos,
{
    if pos < word.len() && word[pos - 1] == word[pos] {
        lemma_deletion_made(word, marker, pos + 1);
        assert(delete_at(word, pos) =~= delete_at(word, pos + 1));
    } else {
        let here = del_tran_at(word, marker, pos);
        assert(here[0].0 == delete_at(word, pos));
        lemma_upto_carries(word, marker, word.len() as int, pos, delete_at(word, pos));
    }
}

proof fn lemma_insertion_made(word: Seq<char>, pos: int, rune: char)
    requires
        0 <= pos <= word.len(),
        is_alphabet(rune),
    ensures
        carries(ins_repl_spec(word, 0), insert_at(word, pos, rune)),
{
    let other = insert_at(word, pos, rune);
    let len = word.len() as int;
    lemma_code_rune(rune);
    let place = if pos == 1 && rune == word[0] {
        0
    } else if len > 2 && pos == len - 1 && rune == word[pos] {
        len
    } else {
        pos
    };
    lemma_empty_marker(place);
    assert(other =~= insert_at(word, place, rune));
    let here = ins_repl_at(word, 0, rune, place);
    assert(here[0].0 == other);
    lemma_row_carries(word, 0, rune, len + 1, place, other);
    lemma_rows_carry(word, 0, 26, char_code(rune), other);
}

proof fn lemma_replacement_made(word: Seq<char>, pos: int, rune: char)
    requires
        1 <= pos <= word.len(),
        is_alphabet(rune),
        rune != word[pos - 1],
        !(word.len() > 2 && pos == word.len() - 1 && rune == word[pos]),
    ensures
        carries(ins_repl_spec(word, 0), replace_at(word, pos, rune)),
{
    let other = replace_at(word, pos, rune);
    lemma_code_rune(rune);
    lemma_empty_marker(pos);
    let here = ins_repl_at(word, 0, rune, pos);
    assert(here[1].0 == other);
    lemma_row_carries(word, 0, rune, word.len() as int + 1, pos, other);
    lemma_rows_carry(word, 0, 26, char_code(rune), other);
}

/// With an empty marker the generator makes every string that is one edit
/// away from a word, but for the word itself and for the one replacement
/// that it leaves out.
pub proof fn lemma_neighbors_are_made(word: Seq<char>, other: Seq<char>)
    requires
        is_neighbor(word, other),
        other != word,
        !is_skipped_replacement(word, other),
    ensures
        carries(edits_of(word, 0), other),
{
    lemma_carries_concat(ins_repl_spec(word, 0), del_tran_spec(word, 0), other);
    if is_insertion(word, other) {
        let (pos, rune) = choose|pos: int, rune: char|
            0 <= pos <= word.len() && is_alphabet(rune) && other == #[trigger] insert_at(
                word,
                pos,
                rune,
            );
        lemma_insertion_made(word, pos, rune);
    } else if is_replacement(word, other) {
        let (pos, rune) = choose|pos: int, rune: char|
            1 <= pos <= word.len() && is_alphabet(rune) && other == #[trigger] replace_at(
                word,
                pos,
                rune,
            );
        if rune == word[pos - 1] {
            assert(other =~= word);
        }
        lemma_replacement_made(word, pos, rune);
    } else if is_deletion(word, other) {
        let pos = choose|pos: int| 1 <= pos <= word.len() && other == #[trigger] delete_at(word, pos);
        lemma_deletion_made(word, 0, pos);
    } else {
        let pos = choose|pos: int|
            1 <= pos < word.len() && other == #[trigger] transpose_at(word, pos);
        if word[pos - 1] == word[pos] {
            assert(other =~= word);
        }
        let here = del_tran_at(word, 0, pos);
        assert(here[1].0 == other);
        lemma_upto_carries(word, 0, word.len() as int, pos, other);
    }
}

/// What a marker holds after a position was taken, bit by bit.
pub proof fn lemma_mark_bit(source: u32, pos: u32, insert: bool, at: u32)
    by (bit_vector)
    requires
        pos < 32,
        at < 32,
    ensures
        (mark_bit_spec(source, pos as int, insert) & (1u32 << at) != 0) == (if at == pos {
            true
        } else if insert && 0 < pos && pos < 31 && at > pos {
            source & (1u32 << ((at - 1) as u32)) != 0
        } else {
            source & (1u32 << at) != 0
        }),
{
}

/// The alphabet of a locale, in order.
pub fn get_char_set(locale: SupportedLocale) -> (runes: Vec<char>)
    ensures
        runes@ == alphabet(),
{
    let size: u8 = match locale {
        SupportedLocale::EnUs => ALPHABET_SIZE,
    };
    let mut runes: Vec<char> = Vec::new();
    let mut code: u8 = 0;
    while code < size
        invariant
            code <= size,
            size == ALPHABET_SIZE,
            runes@.len() == code,
            forall|i: int| 0 <= i < code ==> runes@[i] == rune_at(i),
        decreases size - code,
    {
        runes.push(rune_of_code(code));
        code += 1;
    }
    assert(runes@ =~= alphabet());
    runes
}

/// Sets the bit of position `pos` in a marker; with `insert` the bits above
/// it move up by one first.
pub fn mark_bit(source: u32, pos: usize, insert: bool) -> (marker: u32)
    ensures
        marker == mark_bit_spec(source, pos as int, insert),
        forall|at: int| 0 <= at < 32 && pos < 32 ==> (#[trigger] marked(marker, at) == (if at == pos {
            true
        } else if insert && 0 < pos < 31 && at > pos {
            marked(source, at - 1)
        } else {
            marked(source, at)
        })),
{
    if pos >= MARKER_BITS {
        return source;
    }
    let p: u32 = pos as u32;
    proof {
        assert forall|at: int| 0 <= at < 32 implies (#[trigger] marked(
            mark_bit_spec(source, pos as int, insert),
            at,
        ) == (if at == pos {
            true
        } else if insert && 0 < pos < 31 && at > pos {
            marked(source, at - 1)
        } else {
            marked(source, at)
        })) by {
            lemma_mark_bit(source, p, insert, at as u32);
        }
    }
    let marker = if insert {
        if pos == 31 {
            source | (1u32 << 31)
        } else if pos == 0 {
            assert((1u32 << 0u32) == 1u32) by (bit_vector);
            source | 1
        } else {
            (source >> p << (p + 1)) | (1u32 << p) | (source << (32 - p) >> (32 - p))
        }
    } else {
        source | (1u32 << p)
    };
    assert(marker == mark_bit_spec(source, pos as int, insert));
    marker
}

/// The characters of `word` before `upto`, then `rune`, then the characters
/// from `from` on.
fn splice(word: &str, upto: usize, rune: char, from: usize) -> (spliced: String)
    requires
        upto <= from <= word@.len(),
    ensures
        spliced@ == word@.take(upto as int).push(rune) + word@.skip(from as int),
{
    let size = word.unicode_len();
    let mut spliced = word.substring_char(0, upto).to_owned();
    spliced.push(rune);
    spliced.append(word.substring_char(from, size));
    assert(word@.subrange(0, upto as int) == word@.take(upto as int));
    assert(word@.subrange(from as int, size as int) == word@.skip(from as int));
    spliced
}

/// Appends one edit to a run of edits.
fn push_edit(edits: &mut Vec<(String, u32)>, word: String, marker: u32)
    ensures
        edit_views(final(edits)@) == edit_views(old(edits)@).push((word@, marker)),
{
    edits.push((word, marker));
    assert(edit_views(edits@) =~= edit_views(old(edits)@).push((word@, marker)));
}

/// Generates the insertions and replacements on `word`, each with the marker
/// of its descendants.
pub fn ins_repl(word: &str, marker: u32) -> (edits: Vec<(String, u32)>)
    ensures
        edit_views(edits@) == ins_repl_spec(word@, marker),
{
    let size = word.unicode_len();
    let mut edits: Vec<(String, u32)> = Vec::new();
    let mut idx: u8 = 0;
    assert(edit_views(edits@) =~= ins_repl_rows(word@, marker, 0));
    while idx < ALPHABET_SIZE
        invariant
            idx <= ALPHABET_SIZE,
            size == word@.len(),
            edit_views(edits@) == ins_repl_rows(word@, marker, idx as int),
        decreases ALPHABET_SIZE - idx,
    {
        let rune = rune_of_code(idx);
        let ghost base = edit_views(edits@);
        let mut pos: usize = 0;
        let mut row_done = false;
        assert(edit_views(edits@) =~= base + ins_repl_row(word@, marker, rune, 0));
        while !row_done
            invariant
                size == word@.len(),
                pos <= size,
                row_done ==> pos == size,
                edit_views(edits@) == base + ins_repl_row(
                    word@,
                    marker,
                    rune,
                    if row_done {
                        size + 1
                    } else {
                        pos as int
                    },
                ),
            decreases
                    (size - pos) + (if row_done {
                        0int
                    } else {
                        1int
                    }),
        {
            let ghost row = ins_repl_row(word@, marker, rune, pos as int);
            let ghost here = ins_repl_at(word@, marker, rune, pos as int);
            assert(ins_repl_row(word@, marker, rune, pos + 1) == row + here);
            if check_bit(marker, pos) {
                assert(base + row =~= base + (row + here));
            } else if pos == 0 {
                let inserted = splice(word, 0, rune, 0);
                push_edit(&mut edits, inserted, mark_bit(marker, 0, true));
                assert((base + row).push(here[0]) =~= base + (row + here));
            } else {
                let prev = word.get_char(pos - 1);
                if pos == 1 && rune == prev {
                    assert(base + row =~= base + (row + here));
                } else if size > 2 && pos == size - 1 && rune == word.get_char(pos) {
                    assert(base + row =~= base + (row + here));
                } else {
                    let inserted = splice(word, pos, rune, pos);
                    push_edit(&mut edits, inserted, mark_bit(marker, pos, true));
                    if rune != prev {
                        let replaced = splice(word, pos - 1, rune, pos);
                        push_edit(&mut edits, replaced, marker);
                        assert((base + row).push(here[0]).push(here[1]) =~= base + (row + here));
                    } else {
                        assert((base + row).push(here[0]) =~= base + (row + here));
                    }
                }
            }
            if pos == size {
                row_done = true;
            } else {
                pos += 1;
            }
        }
        assert(ins_repl_rows(word@, marker, idx + 1) =~= base + ins_repl_row(
            word@,
            marker,
            rune,
            size + 1,
        ));
        idx += 1;
    }
    edits
}

/// Generates the deletions and transpositions on `word`; every one carries
/// `marker` on.
pub fn del_tran(word: &str, marker: u32) -> (edits: Vec<(String, u32)>)
    ensures
        edit_views(edits@) == del_tran_spec(word@, marker),
{
    let size = word.unicode_len();
    let mut edits: Vec<(String, u32)> = Vec::new();
    let mut done: usize = 0;
    assert(edit_views(edits@) =~= del_tran_upto(word@, marker, 0));
    while done < size
        invariant
            done <= size,
            size == word@.len(),
            edit_views(edits@) == del_tran_upto(word@, marker, done as int),
        decreases size - done,
    {
        let pos = done + 1;
        let ghost upto = del_tran_upto(word@, marker, done as int);
        let ghost here = del_tran_at(word@, marker, pos as int);
        assert(del_tran_upto(word@, marker, pos as int) == upto + here);
        let del = word.get_char(pos - 1);
        if pos < size && del == word.get_char(pos) {
            assert(upto =~= upto + here);
        } else {
            let mut deleted = word.substring_char(0, pos - 1).to_owned();
            deleted.append(word.substring_char(pos, size));
            assert(word@.subrange(0, pos - 1) == word@.take(pos - 1));
            assert(word@.subrange(pos as int, size as int) == word@.skip(pos as int));
            push_edit(&mut edits, deleted, marker);
            if pos < size {
                let mut swapped = word.substring_char(0, pos - 1).to_owned();
                swapped.push(word.get_char(pos));
                swapped.push(del);
                swapped.append(word.substring_char(pos + 1, size));
                assert(word@.subrange(pos + 1, size as int) == word@.skip(pos + 1));
                push_edit(&mut edits, swapped, marker);
                assert(upto.push(here[0]).push(here[1]) =~= upto + here);
            } else {
                assert(upto.push(here[0]) =~= upto + here);
            }
        }
        done += 1;
    }
    edits
}

/// Whether the marker holds position `pos`.
pub fn check_bit(source: u32, pos: usize) -> (set: bool)
    ensures
        set == marked(source, pos as int),
{
    pos < MARKER_BITS && source & (1u32 << (pos as u32)) > 0
}

} // verus!
