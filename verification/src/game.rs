//! The rules of a game round: which guesses count, their colours, the
//! keyboard, hard mode, and the candidate list shown on request.

use vstd::prelude::*;
use crate::letters::{is_upper_word, is_lower_word, in_alphabet, lowered, uppered, char_at, alpha_index, matches_upper};
use crate::candidates::{consistent, keep_consistent, readable_marks, readable_word, lemma_answer_stays_candidate};
use crate::feedback::{pattern_colours, lemma_pattern_prefix, lemma_pattern_case_blind};
use crate::letters::lemma_case_letters;
use crate::dict::Dict;
use crate::stats::has_match;

verus! {

/// The smaller of `x` and `y`.
pub fn min(x: i32, y: i32) -> (r: i32)
    ensures
        r == if x < y { x } else { y },
{
    if x < y {
        return x;
    } else {
        return y;
    }
}

/// The larger of `x` and `y`.
pub fn max(x: i32, y: i32) -> (r: i32)
    ensures
        r == if x > y { x } else { y },
{
    if x > y {
        return x;
    } else {
        return y;
    }
}

/// Some position `i < n` carries mark `m` and guesses the letter with code `code`.
pub open spec fn has_mark(g: Seq<char>, out: Seq<char>, n: int, code: int, m: char) -> bool
    decreases n,
{
    if n <= 0 {
        false
    } else {
        has_mark(g, out, n - 1, code, m) || (out[n - 1] == m && g[n - 1] as int == code)
    }
}

/// The keyboard colour of the letter with code `code` after the guess `g`
/// earned `out`, when it was `old` before: green wins over yellow, yellow
/// over grey (`R`), grey over untouched.
pub open spec fn key_after(old: char, g: Seq<char>, out: Seq<char>, code: int) -> char {
    if has_mark(g, out, 5, code, 'G') {
        'G'
    } else if old == 'G' {
        'G'
    } else if has_mark(g, out, 5, code, 'Y') {
        'Y'
    } else if old == 'Y' {
        'Y'
    } else if has_mark(g, out, 5, code, 'R') {
        'R'
    } else {
        old
    }
}

/// The strength of a keyboard colour.
pub open spec fn key_rank(c: char) -> int {
    if c == 'G' {
        3
    } else if c == 'Y' {
        2
    } else if c == 'R' {
        1
    } else {
        0
    }
}

/// A keyboard colour never weakens: every guess leaves each key at least as
/// strong as it was, and at least as strong as the marks the guess put on it.
pub proof fn lemma_key_never_weakens(old: char, g: Seq<char>, out: Seq<char>, code: int)
    ensures
        key_rank(key_after(old, g, out, code)) >= key_rank(old),
        has_mark(g, out, 5, code, 'G') ==> key_after(old, g, out, code) == 'G',
        has_mark(g, out, 5, code, 'Y') ==> key_rank(key_after(old, g, out, code)) >= 2,
        has_mark(g, out, 5, code, 'R') ==> key_rank(key_after(old, g, out, code)) >= 1,
{
}

/// The keyboard after the guess `guess` earned `out`, given the keyboard
/// `status` before (26 keys, `A` first).
pub fn update_keyboard(status: &Vec<char>, guess: &String, out: &Vec<char>) -> (new_status: Vec<char>)
    requires
        status.len() == 26,
        out.len() == 5,
        is_upper_word(guess@),
    ensures
        new_status.len() == 26,
        forall|k: int|
            0 <= k < 26 ==> #[trigger] new_status[k] == key_after(status[k], guess@, out@, k + 65),
        forall|i: int|
            0 <= i < 5 && out@[i] == 'G' ==> new_status[guess@[i] as int - 65] == 'G',
        forall|i: int|
            0 <= i < 5 && out@[i] == 'Y' ==> key_rank(new_status[guess@[i] as int - 65]) >= 2,
        forall|i: int|
            0 <= i < 5 && out@[i] == 'R' ==> key_rank(new_status[guess@[i] as int - 65]) >= 1,
        forall|k: int|
            0 <= k < 26 ==> key_rank(#[trigger] new_status[k]) >= key_rank(status[k]),
        forall|k: int|
            0 <= k < 26 && (forall|i: int| 0 <= i < 5 ==> guess@[i] as int != k + 65) ==> #[trigger] new_status[k]
                == status[k],
{
    let ghost g = guess@;
    let ghost o = out@;
    let mut new_status = status.clone();
    for i in 0..5
        invariant
            g == guess@,
            o == out@,
            status.len() == 26,
            out.len() == 5,
            is_upper_word(g),
            new_status.len() == 26,
            forall|k: int|
                0 <= k < 26 ==> #[trigger] new_status[k] == if has_mark(g, o, i as int, k + 65, 'G') {
                    'G'
                } else {
                    status[k]
                },
    {
        if out[i] == 'G' {
            assert(in_alphabet(g[i as int], 'A'));
            let index = alpha_index(char_at(guess, i), 'A');
            new_status.set(index, 'G');
        }
    }
    for i in 0..5
        invariant
            g == guess@,
            o == out@,
            status.len() == 26,
            out.len() == 5,
            is_upper_word(g),
            new_status.len() == 26,
            forall|k: int|
                0 <= k < 26 ==> #[trigger] new_status[k] == if has_mark(g, o, 5, k + 65, 'G') {
                    'G'
                } else if status[k] == 'G' {
                    'G'
                } else if has_mark(g, o, i as int, k + 65, 'Y') {
                    'Y'
                } else if status[k] == 'Y' {
                    'Y'
                } else if has_mark(g, o, i as int, k + 65, 'R') {
                    'R'
                } else {
                    status[k]
                },
    {
        if out[i] != 'G' {
            assert(in_alphabet(g[i as int], 'A'));
            let index = alpha_index(char_at(guess, i), 'A');
            if out[i] == 'Y' {
                if new_status[index] != 'G' {
                    new_status.set(index, 'Y');
                }
            } else if out[i] == 'R' {
                if new_status[index] != 'G' && new_status[index] != 'Y' {
                    new_status.set(index, 'R');
                }
            }
        }
    }
    proof {
        assert forall|i: int| 0 <= i < 5 && out@[i] == 'G' implies new_status[guess@[i] as int - 65] == 'G' by {
            assert(in_alphabet(g[i], 'A'));
            lemma_marked_position(g, o, i, 'G');
            let k = g[i] as int - 65;
            assert(new_status[k] == key_after(status[k], g, o, k + 65));
            assert(key_after(status[k], g, o, g[i] as int) == key_after(status[k], g, o, k + 65));
        }
        assert forall|i: int| 0 <= i < 5 && out@[i] == 'Y' implies key_rank(new_status[guess@[i] as int - 65]) >= 2 by {
            assert(in_alphabet(g[i], 'A'));
            lemma_marked_position(g, o, i, 'Y');
            let k = g[i] as int - 65;
            assert(new_status[k] == key_after(status[k], g, o, k + 65));
            assert(key_after(status[k], g, o, g[i] as int) == key_after(status[k], g, o, k + 65));
        }
        assert forall|i: int| 0 <= i < 5 && out@[i] == 'R' implies key_rank(new_status[guess@[i] as int - 65]) >= 1 by {
            assert(in_alphabet(g[i], 'A'));
            lemma_marked_position(g, o, i, 'R');
            let k = g[i] as int - 65;
            assert(new_status[k] == key_after(status[k], g, o, k + 65));
            assert(key_after(status[k], g, o, g[i] as int) == key_after(status[k], g, o, k + 65));
        }
        assert forall|k: int| 0 <= k < 26 implies key_rank(#[trigger] new_status[k]) >= key_rank(status[k]) by {
            lemma_key_never_weakens(status[k], g, o, k + 65);
        }
        assert forall|k: int|
            0 <= k < 26 && (forall|i: int| 0 <= i < 5 ==> g[i] as int != k + 65) implies #[trigger] new_status[k]
                == status[k] by {
            lemma_unguessed_letter_unmarked(g, o, k + 65);
            assert(key_after(status[k], g, o, k + 65) == status[k]);
        }
    }
    new_status
}

/// A position marked `m` in the first `n` positions puts that mark on its letter.
proof fn lemma_mark_found(g: Seq<char>, out: Seq<char>, n: int, i: int, m: char)
    requires
        0 <= i < n,
        out[i] == m,
    ensures
        has_mark(g, out, n, g[i] as int, m),
    decreases n,
{
    if i < n - 1 {
        lemma_mark_found(g, out, n - 1, i, m);
    }
}

/// A letter the guess does not contain carries no mark.
proof fn lemma_no_mark(g: Seq<char>, out: Seq<char>, n: int, code: int, m: char)
    requires
        n <= 5,
        forall|i: int| 0 <= i < 5 ==> g[i] as int != code,
    ensures
        !has_mark(g, out, n, code, m),
    decreases n,
{
    if n > 0 {
        lemma_no_mark(g, out, n - 1, code, m);
    }
}

/// Each coloured position of a guess shows on the key of its letter: a green
/// position makes the key green, a yellow one at least yellow, a grey one at
/// least grey, whatever the key was before.
pub proof fn lemma_marked_position(g: Seq<char>, out: Seq<char>, i: int, m: char)
    requires
        0 <= i < 5,
        out[i] == m,
    ensures
        forall|old: char|
            m == 'G' ==> #[trigger] key_after(old, g, out, g[i] as int) == 'G',
        forall|old: char|
            m == 'Y' ==> key_rank(#[trigger] key_after(old, g, out, g[i] as int)) >= 2,
        forall|old: char|
            m == 'R' ==> key_rank(#[trigger] key_after(old, g, out, g[i] as int)) >= 1,
{
    lemma_mark_found(g, out, 5, i, m);
}

/// A key whose letter the guess does not contain keeps its colour.
pub proof fn lemma_unguessed_letter_unmarked(g: Seq<char>, out: Seq<char>, code: int)
    requires
        forall|i: int| 0 <= i < 5 ==> g[i] as int != code,
    ensures
        forall|old: char| #[trigger] key_after(old, g, out, code) == old,
{
    lemma_no_mark(g, out, 5, code, 'G');
    lemma_no_mark(g, out, 5, code, 'Y');
    lemma_no_mark(g, out, 5, code, 'R');
}

/// Whether `guess` is the uppercase of an accepted word of the dictionary.
pub fn check(guess: &String, dict: &Dict) -> (valid: bool)
    ensures
        valid == has_match(dict.ACCEPTABLE.deep_view(), guess@),
{
    let words = dict.get_ACCEPTABLE();
    let ghost w = dict.ACCEPTABLE.deep_view();
    for i in 0..words.len()
        invariant
            words@ == dict.ACCEPTABLE@,
            w == dict.ACCEPTABLE.deep_view(),
            forall|j: int| 0 <= j < i ==> uppered(#[trigger] w[j]) != guess@,
    {
        if matches_upper(&words[i], guess) {
            assert(uppered(w[i as int]) == guess@);
            return true;
        }
    }
    false
}

/// Hard mode: every green of the previous guess stays green, and for every
/// letter no more copies of the answer are left unaccounted for than before.
pub open spec fn hard_mode_allows(
    pre_delta: Seq<i32>,
    delta: Seq<i32>,
    pre_out: Seq<char>,
    out: Seq<char>,
) -> bool {
    &&& forall|i: int| 0 <= i < 5 ==> pre_out[i] == 'G' ==> #[trigger] out[i] == 'G'
    &&& forall|k: int| 0 <= k < 26 ==> #[trigger] delta[k] <= pre_delta[k]
}

/// Hard mode refuses a guess after which some letter of the answer has more
/// copies left unaccounted for than after the previous guess (whatever that
/// earlier number was, zero included): a guess that drops a revealed letter
/// is refused.
pub proof fn lemma_hard_mode_refuses_more_remaining(
    pre_delta: Seq<i32>,
    delta: Seq<i32>,
    pre_out: Seq<char>,
    out: Seq<char>,
    k: int,
)
    requires
        0 <= k < 26,
        delta[k] > pre_delta[k],
    ensures
        !hard_mode_allows(pre_delta, delta, pre_out, out),
{
}

/// Hard mode refuses a guess that loses a green of the previous guess.
pub proof fn lemma_hard_mode_refuses_lost_green(
    pre_delta: Seq<i32>,
    delta: Seq<i32>,
    pre_out: Seq<char>,
    out: Seq<char>,
    i: int,
)
    requires
        0 <= i < 5,
        pre_out[i] == 'G',
        out[i] != 'G',
    ensures
        !hard_mode_allows(pre_delta, delta, pre_out, out),
{
}

/// Hard mode accepts a guess that keeps every green and leaves no letter with
/// more unaccounted copies than before.
pub proof fn lemma_hard_mode_accepts_keeping(pre_delta: Seq<i32>, delta: Seq<i32>, pre_out: Seq<char>, out: Seq<char>)
    requires
        forall|k: int| 0 <= k < 26 ==> delta[k] <= pre_delta[k],
        forall|i: int| 0 <= i < 5 && pre_out[i] == 'G' ==> out[i] == 'G',
    ensures
        hard_mode_allows(pre_delta, delta, pre_out, out),
{
}

/// Whether a guess may follow the previous one in hard mode.
pub fn check_diffcult(pre_delta: &Vec<i32>, delta: &Vec<i32>, pre_out: &Vec<char>, out: &Vec<char>) -> (ok: bool)
    requires
        pre_delta.len() >= 26,
        delta.len() >= 26,
        pre_out.len() >= 5,
        out.len() >= 5,
    ensures
        ok == hard_mode_allows(pre_delta@, delta@, pre_out@, out@),
        (exists|k: int| 0 <= k < 26 && delta@[k] > pre_delta@[k]) ==> !ok,
        (exists|i: int| 0 <= i < 5 && pre_out@[i] == 'G' && out@[i] != 'G') ==> !ok,
        ok <==> (forall|k: int| 0 <= k < 26 ==> delta@[k] <= pre_delta@[k]) && (forall|i: int|
            0 <= i < 5 && pre_out@[i] == 'G' ==> out@[i] == 'G'),
{
    for i in 0..5
        invariant
            pre_out.len() >= 5,
            out.len() >= 5,
            forall|j: int| 0 <= j < i ==> pre_out[j] == 'G' ==> #[trigger] out[j] == 'G',
    {
        if pre_out[i] == 'G' && out[i] != 'G' {
            return false;
        }
    }
    for i in 0..26
        invariant
            pre_delta.len() >= 26,
            delta.len() >= 26,
            forall|j: int| 0 <= j < 5 ==> pre_out[j] == 'G' ==> #[trigger] out[j] == 'G',
            forall|k: int| 0 <= k < i ==> #[trigger] delta[k] <= pre_delta[k],
    {
        if delta[i] > pre_delta[i] {
            return false;
        }
    }
    true
}

/// The words the player may still need, offered on request.
pub struct Help {
    pub list: Vec<String>,
}

impl Help {
    /// Keeps only the words that agree with the colours `out` that `guess` earned.
    pub fn update(&mut self, out: &Vec<char>, guess: &String)
        requires
            readable_marks(out@, lowered(guess@)),
            forall|j: int| 0 <= j < old(self).list@.len() ==> readable_word(#[trigger] old(self).list@[j]@, out@),
        ensures
            final(self).list.deep_view() == old(self).list.deep_view().filter(
                |w: Seq<char>| consistent(w, out@, lowered(guess@)),
            ),
    {
        let new_list = keep_consistent(&self.list, out, guess);
        self.list = new_list;
    }
}

/// The candidates offered during a game never lose the answer: the lowercase
/// answer agrees with the colours that any uppercase guess earns against the
/// uppercase answer.
pub proof fn lemma_round_keeps_answer(answer: Seq<char>, guess: Seq<char>)
    requires
        is_lower_word(answer),
        is_upper_word(guess),
    ensures
        consistent(answer, pattern_colours(uppered(answer), guess), lowered(guess)),
{
    let g = lowered(guess);
    assert forall|i: int| 0 <= i < 5 implies crate::letters::is_lower(#[trigger] g[i]) && uppered(g)[i] == guess[i] by {
        lemma_case_letters(guess[i]);
        lemma_case_letters(g[i]);
    }
    assert(is_lower_word(g));
    lemma_pattern_prefix(uppered(answer), guess, uppered(answer), uppered(g));
    lemma_pattern_case_blind(answer, g);
    lemma_answer_stays_candidate(answer, g);
}

} // verus!
