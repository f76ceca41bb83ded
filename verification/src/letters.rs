//! Letters and words: character classes, case mapping and character access.

use vstd::prelude::*;
use vstd::string::*;

verus! {

/// A lowercase ASCII letter.
pub open spec fn is_lower(c: char) -> bool {
    'a' <= c && c <= 'z'
}

/// An uppercase ASCII letter.
pub open spec fn is_upper(c: char) -> bool {
    'A' <= c && c <= 'Z'
}

/// `c` is one of the 26 letters that start at `base` (`'a'` or `'A'`).
pub open spec fn in_alphabet(c: char, base: char) -> bool {
    base as int <= c as int && (c as int) < base as int + 26
}

/// A word whose first five characters are letters of the alphabet starting at `base`.
pub open spec fn is_word_in(w: Seq<char>, base: char) -> bool {
    w.len() >= 5 && forall|i: int| 0 <= i < 5 ==> in_alphabet(#[trigger] w[i], base)
}

/// A word whose first five characters are lowercase ASCII letters.
pub open spec fn is_lower_word(w: Seq<char>) -> bool {
    w.len() >= 5 && forall|i: int| 0 <= i < 5 ==> is_lower(#[trigger] w[i])
}

/// A word whose first five characters are uppercase ASCII letters.
pub open spec fn is_upper_word(w: Seq<char>) -> bool {
    w.len() >= 5 && forall|i: int| 0 <= i < 5 ==> is_upper(#[trigger] w[i])
}

/// ASCII lowercase of a character: uppercase ASCII letters move to their
/// lowercase counterpart, every other character stays.
pub open spec fn to_lower(c: char) -> char {
    if is_upper(c) {
        ((c as int) + 32) as char
    } else {
        c
    }
}

/// ASCII uppercase of a character.
pub open spec fn to_upper(c: char) -> char {
    if is_lower(c) {
        ((c as int) - 32) as char
    } else {
        c
    }
}

/// ASCII lowercase of a word.
pub open spec fn lowered(s: Seq<char>) -> Seq<char> {
    s.map_values(|c: char| to_lower(c))
}

/// ASCII uppercase of a word.
pub open spec fn uppered(s: Seq<char>) -> Seq<char> {
    s.map_values(|c: char| to_upper(c))
}

pub proof fn lemma_case_letters(c: char)
    ensures
        is_upper(c) ==> is_lower(to_lower(c)) && to_lower(c) as int == c as int + 32,
        is_lower(c) ==> is_upper(to_upper(c)) && to_upper(c) as int == c as int - 32,
        !is_upper(c) ==> to_lower(c) == c,
        !is_lower(c) ==> to_upper(c) == c,
{
}

/// ASCII lowercase of one character.
pub fn lower_char(c: char) -> (r: char)
    ensures
        r == to_lower(c),
{
    if 'A' <= c && c <= 'Z' {
        ((c as u8) + 32) as char
    } else {
        c
    }
}

/// ASCII uppercase of one character.
pub fn upper_char(c: char) -> (r: char)
    ensures
        r == to_upper(c),
{
    if 'a' <= c && c <= 'z' {
        ((c as u8) - 32) as char
    } else {
        c
    }
}

/// The character at position `i` of `s`.
pub fn char_at(s: &String, i: usize) -> (c: char)
    requires
        i < s@.len(),
    ensures
        c == s@[i as int],
{
    s.as_str().get_char(i)
}

/// Position of a letter in the alphabet that starts at `base`.
pub fn alpha_index(c: char, base: char) -> (k: usize)
    requires
        in_alphabet(c, base),
    ensures
        k == c as int - base as int,
        k < 26,
{
    (c as u32 - base as u32) as usize
}

/// Position of a lowercase letter in the alphabet.
pub fn lower_index(c: char) -> (k: usize)
    requires
        is_lower(c),
    ensures
        k == c as int - 'a' as int,
        k < 26,
{
    (c as u32 - 'a' as u32) as usize
}

/// Whether the ASCII uppercase of `word` is exactly `target`.
pub fn matches_upper(word: &String, target: &String) -> (b: bool)
    ensures
        b == (uppered(word@) == target@),
{
    let n = word.as_str().unicode_len();
    let m = target.as_str().unicode_len();
    if n != m {
        assert(uppered(word@).len() != target@.len());
        return false;
    }
    for i in 0..n
        invariant
            n == word@.len() == target@.len(),
            forall|j: int| 0 <= j < i ==> #[trigger] uppered(word@)[j] == target@[j],
    {
        if upper_char(char_at(word, i)) != char_at(target, i) {
            assert(uppered(word@)[i as int] != target@[i as int]);
            return false;
        }
    }
    assert(uppered(word@) =~= target@);
    true
}

/// Whether the first five characters of `w` are lowercase letters.
pub fn is_lower_five(w: &String) -> (b: bool)
    ensures
        b == is_lower_word(w@),
{
    let n = w.as_str().unicode_len();
    if n < 5 {
        return false;
    }
    for i in 0..5
        invariant
            n == w@.len() >= 5,
            forall|j: int| 0 <= j < i ==> is_lower(#[trigger] w@[j]),
    {
        let c = char_at(w, i);
        if !('a' <= c && c <= 'z') {
            return false;
        }
    }
    true
}

/// Whether the first five characters of `w` are uppercase letters.
pub fn is_upper_five(w: &String) -> (b: bool)
    ensures
        b == is_upper_word(w@),
{
    let n = w.as_str().unicode_len();
    if n < 5 {
        return false;
    }
    for i in 0..5
        invariant
            n == w@.len() >= 5,
            forall|j: int| 0 <= j < i ==> is_upper(#[trigger] w@[j]),
    {
        let c = char_at(w, i);
        if !('A' <= c && c <= 'Z') {
            return false;
        }
    }
    true
}

/// Whether every word of `words` starts with five lowercase letters.
pub fn all_lower_words(words: &Vec<String>) -> (b: bool)
    ensures
        b == forall|j: int| 0 <= j < words@.len() ==> is_lower_word(#[trigger] words@[j]@),
{
    for i in 0..words.len()
        invariant
            forall|j: int| 0 <= j < i ==> is_lower_word(#[trigger] words@[j]@),
    {
        if !is_lower_five(&words[i]) {
            return false;
        }
    }
    true
}

} // verus!
