//! The alphabet over which edits are generated, and the code of each rune.

use vstd::prelude::*;

verus! {

/// Number of runes in the alphabet.
pub const ALPHABET_SIZE: u8 = 26;

/// Whether `rune` is one of the lowercase Latin letters.
pub open spec fn is_alphabet(rune: char) -> bool {
    'a' <= rune && rune <= 'z'
}

/// The code of a rune: its distance from `'a'`.
pub open spec fn char_code(rune: char) -> int {
    rune as int - 'a' as int
}

/// The rune with the given code.
pub open spec fn rune_at(code: int) -> char {
    (code + 'a' as int) as char
}

/// The alphabet in order, as a sequence of runes.
pub open spec fn alphabet() -> Seq<char> {
    Seq::new(26, |i: int| rune_at(i))
}

/// Code of an alphabet rune, between 0 and 25, used as a bit position.
pub fn get_char_code(rune: char) -> (code: u8)
    requires
        is_alphabet(rune),
    ensures
        code as int == char_code(rune),
        code < ALPHABET_SIZE,
{
    (rune as u32 - 'a' as u32) as u8
}

/// The rune that carries `code`.
pub fn rune_of_code(code: u8) -> (rune: char)
    requires
        code < ALPHABET_SIZE,
    ensures
        rune == rune_at(code as int),
        is_alphabet(rune),
        char_code(rune) == code as int,
{
    (code + 97u8) as char
}

/// Trusted: `String::push` of the standard library appends the character at
/// the end of the string and changes nothing else.
pub assume_specification[ String::push ](s: &mut String, ch: char)
    ensures
        final(s)@ == old(s)@.push(ch),
;

/// Whether a character is white space, as `char::is_whitespace` decides it
/// from the Unicode property White_Space.
pub uninterp spec fn white_space(c: char) -> bool;

/// The lowercase form of a string, as `str::to_lowercase` computes it from
/// the Unicode case mappings.
pub uninterp spec fn lowercase_of(s: Seq<char>) -> Seq<char>;

/// Trusted: the answer of `char::is_whitespace` of the standard library
/// depends on the character alone; `white_space` is its name. The space and
/// the controls from tab to carriage return have the property White_Space.
pub assume_specification[ char::is_whitespace ](c: char) -> (b: bool)
    ensures
        b == white_space(c),
        (c == ' ' || ('\t' <= c && c <= '\r')) ==> b,
;

/// Trusted: the result of `str::to_lowercase` of the standard library
/// depends on the characters of the string alone; `lowercase_of` is its name.
pub assume_specification[ str::to_lowercase ](s: &str) -> (lower: String)
    ensures
        lower@ == lowercase_of(s@),
;

/// Index of the first character of `s`, at or after `from`, that is not white
/// space; the length of `s` when there is none.
pub open spec fn leading_space(s: Seq<char>, from: int) -> int
    decreases s.len() - from,
{
    if from < 0 || from >= s.len() {
        s.len() as int
    } else if !white_space(s[from]) {
        from
    } else {
        leading_space(s, from + 1)
    }
}

/// Index just behind the last character of `s`, before `upto`, that is not
/// white space; 0 when there is none.
pub open spec fn trailing_end(s: Seq<char>, upto: int) -> int
    decreases upto,
{
    if upto <= 0 {
        0
    } else if !white_space(s[upto - 1]) {
        upto
    } else {
        trailing_end(s, upto - 1)
    }
}

/// `s` without its leading and trailing white space.
pub open spec fn trimmed(s: Seq<char>) -> Seq<char> {
    let start = leading_space(s, 0);
    if start >= s.len() {
        Seq::empty()
    } else {
        s.subrange(start, trailing_end(s, s.len() as int))
    }
}

/// The form in which a word is searched: trimmed, then in lowercase.
pub open spec fn normalized(s: Seq<char>) -> Seq<char> {
    let t = trimmed(s);
    if t.len() == 0 {
        Seq::empty()
    } else {
        lowercase_of(t)
    }
}

proof fn lemma_leading_space_blank(s: Seq<char>, from: int)
    requires
        0 <= from <= s.len(),
        forall|i: int| 0 <= i < s.len() ==> white_space(#[trigger] s[i]),
    ensures
        leading_space(s, from) == s.len(),
    decreases s.len() - from,
{
    if from < s.len() {
        lemma_leading_space_blank(s, from + 1);
    }
}

/// A string of white space alone, and so the empty string, is empty once
/// normalized.
pub proof fn lemma_normalized_blank(s: Seq<char>)
    requires
        forall|i: int| 0 <= i < s.len() ==> white_space(#[trigger] s[i]),
    ensures
        trimmed(s).len() == 0,
        normalized(s).len() == 0,
{
    lemma_leading_space_blank(s, 0);
}

proof fn lemma_trailing_end(s: Seq<char>, upto: int, at: int)
    requires
        0 <= at < upto <= s.len(),
        !white_space(s[at]),
    ensures
        at < trailing_end(s, upto) <= upto,
    decreases upto,
{
    if white_space(s[upto - 1]) {
        lemma_trailing_end(s, upto - 1, at);
    }
}

/// Removes the leading and trailing white space of `word`.
pub fn trim(word: &str) -> (inner: &str)
    ensures
        inner@ == trimmed(word@),
{
    let len = word.unicode_len();
    let mut start: usize = 0;
    while start < len && word.get_char(start).is_whitespace()
        invariant
            start <= len,
            len == word@.len(),
            leading_space(word@, 0) == leading_space(word@, start as int),
        decreases len - start,
    {
        start += 1;
    }
    if start >= len {
        return word.substring_char(0, 0);
    }
    let mut end: usize = len;
    while end > 0 && word.get_char(end - 1).is_whitespace()
        invariant
            end <= len,
            len == word@.len(),
            trailing_end(word@, len as int) == trailing_end(word@, end as int),
        decreases end,
    {
        end -= 1;
    }
    proof {
        lemma_trailing_end(word@, len as int, start as int);
    }
    word.substring_char(start, end)
}

/// Brings `word` into the form in which it is searched.
pub fn normalize(word: &str) -> (clean: String)
    ensures
        clean@ == normalized(word@),
{
    let inner = trim(word);
    if inner.is_empty() {
        String::new()
    } else {
        inner.to_lowercase()
    }
}

/// Whether `rune` belongs to the alphabet.
pub fn in_alphabet(rune: char) -> (b: bool)
    ensures
        b == is_alphabet(rune),
{
    'a' <= rune && rune <= 'z'
}

/// The runes of a word, in order.
pub fn runes_of(word: &str) -> (runes: Vec<char>)
    ensures
        runes@ == word@,
{
    let len = word.unicode_len();
    let mut runes: Vec<char> = Vec::with_capacity(len);
    let mut i: usize = 0;
    while i < len
        invariant
            i <= len,
            len == word@.len(),
            runes@ == word@.take(i as int),
        decreases len - i,
    {
        runes.push(word.get_char(i));
        assert(word@.take(i + 1) == word@.take(i as int).push(word@[i as int]));
        i += 1;
    }
    assert(word@.take(len as int) == word@);
    runes
}

/// The codes and the runes of the alphabet stand in one-to-one correspondence.
pub proof fn lemma_rune_code(code: int)
    requires
        0 <= code < 26,
    ensures
        is_alphabet(rune_at(code)),
        char_code(rune_at(code)) == code,
{
}

/// Every alphabet rune is the rune of its own code.
pub proof fn lemma_code_rune(rune: char)
    requires
        is_alphabet(rune),
    ensures
        0 <= char_code(rune) < 26,
        rune_at(char_code(rune)) == rune,
{
}

} // verus!
