//! The colour pattern that a guess earns against an answer.

use vstd::prelude::*;
use crate::letters::{is_lower_word, is_word_in, char_at, alpha_index, uppered, lemma_case_letters};

verus! {

/// Number of positions `j < n` where `w[j]` has code `code` and differs from `o[j]`.
pub open spec fn unmatched(w: Seq<char>, o: Seq<char>, n: int, code: int) -> nat
    decreases n,
{
    if n <= 0 {
        0
    } else {
        unmatched(w, o, n - 1, code) + if w[n - 1] as int == code && w[n - 1] != o[n - 1] {
            1nat
        } else {
            0nat
        }
    }
}

/// Number of positions `j < n` where `w[j]` has code `code` and equals `o[j]`.
pub open spec fn matched(w: Seq<char>, o: Seq<char>, n: int, code: int) -> nat
    decreases n,
{
    if n <= 0 {
        0
    } else {
        matched(w, o, n - 1, code) + if w[n - 1] as int == code && w[n - 1] == o[n - 1] {
            1nat
        } else {
            0nat
        }
    }
}

/// Number of positions `j < n` where `w[j]` has code `code`.
pub open spec fn occurrences(w: Seq<char>, n: int, code: int) -> nat
    decreases n,
{
    if n <= 0 {
        0
    } else {
        occurrences(w, n - 1, code) + if w[n - 1] as int == code {
            1nat
        } else {
            0nat
        }
    }
}

/// The digit of position `i`: 0 for green (right letter, right place), 1 for
/// yellow (the letter is still unaccounted for elsewhere in the answer),
/// 2 for grey. Letters of the answer are handed out to the non-green
/// positions of the guess from left to right.
pub open spec fn feedback_digit(answer: Seq<char>, guess: Seq<char>, i: int) -> int {
    if answer[i] == guess[i] {
        0
    } else if unmatched(guess, answer, i, guess[i] as int) < unmatched(answer, guess, 5, guess[i] as int) {
        1
    } else {
        2
    }
}

/// The first `n` digits of the pattern, read as a number in base 3
/// (position 0 is the most significant digit).
pub open spec fn pattern_value(answer: Seq<char>, guess: Seq<char>, n: int) -> int
    decreases n,
{
    if n <= 0 {
        0
    } else {
        pattern_value(answer, guess, n - 1) * 3 + feedback_digit(answer, guess, n - 1)
    }
}

/// The code of the whole five-letter pattern.
pub open spec fn pattern_code(answer: Seq<char>, guess: Seq<char>) -> int {
    pattern_value(answer, guess, 5)
}

/// `3` to the power `n`.
pub open spec fn power_of_three(n: int) -> int
    decreases n,
{
    if n <= 0 {
        1
    } else {
        3 * power_of_three(n - 1)
    }
}

pub proof fn lemma_counts_split(w: Seq<char>, o: Seq<char>, n: int, code: int)
    ensures
        occurrences(w, n, code) == matched(w, o, n, code) + unmatched(w, o, n, code),
        unmatched(w, o, n, code) <= occurrences(w, n, code),
        occurrences(w, n, code) <= if n < 0 { 0 } else { n },
    decreases n,
{
    if n > 0 {
        lemma_counts_split(w, o, n - 1, code);
    }
}

pub proof fn lemma_pattern_value_bound(answer: Seq<char>, guess: Seq<char>, n: int)
    requires
        0 <= n,
    ensures
        0 <= pattern_value(answer, guess, n) < power_of_three(n),
    decreases n,
{
    if n > 0 {
        lemma_pattern_value_bound(answer, guess, n - 1);
    }
}

/// How many unaccounted copies of the letter with code `code` the answer
/// still has after the first `n` positions of the guess have been coloured.
pub open spec fn remaining_after(answer: Seq<char>, guess: Seq<char>, n: int, code: int) -> int {
    if unmatched(answer, guess, 5, code) > unmatched(guess, answer, n, code) {
        unmatched(answer, guess, 5, code) - unmatched(guess, answer, n, code)
    } else {
        0
    }
}

/// The number of times each of the 26 letters starting at `base` occurs among
/// the first five characters of `w`.
pub fn letter_counts(w: &String, base: char) -> (counts: Vec<i32>)
    requires
        is_word_in(w@, base),
    ensures
        counts.len() == 26,
        forall|k: int| 0 <= k < 26 ==> #[trigger] counts[k] == occurrences(w@, 5, k + base as int),
{
    let ghost a = w@;
    let mut delta: Vec<i32> = vec![0; 26];
    for i in 0..5
        invariant
            a == w@,
            is_word_in(a, base),
            delta.len() == 26,
            forall|k: int| 0 <= k < 26 ==> #[trigger] delta[k] == occurrences(a, i as int, k + base as int),
    {
        let k = alpha_index(char_at(w, i), base);
        proof {
            lemma_counts_split(a, a, i as int, k + base as int);
        }
        let v = delta[k] + 1;
        delta.set(k, v);
    }
    delta
}

/// Colours `guess` against `answer`, given the letter counts of the answer:
/// the digit of each position (see `feedback_digit`) and, for each letter,
/// how many copies of it in the answer no green or yellow accounted for.
pub fn score_against(answer: &String, guess: &String, counts: &Vec<i32>, base: char) -> (scored: (
    Vec<i32>,
    Vec<i32>,
))
    requires
        is_word_in(answer@, base),
        is_word_in(guess@, base),
        counts.len() == 26,
        forall|k: int| 0 <= k < 26 ==> #[trigger] counts[k] == occurrences(answer@, 5, k + base as int),
    ensures
        scored.0.len() == 5,
        forall|j: int| 0 <= j < 5 ==> #[trigger] scored.0[j] == feedback_digit(answer@, guess@, j),
        scored.1.len() == 26,
        forall|k: int|
            0 <= k < 26 ==> #[trigger] scored.1[k] == remaining_after(answer@, guess@, 5, k + base as int),
{
    let ghost a = answer@;
    let ghost g = guess@;
    let ghost b = base as int;
    let mut res: Vec<i32> = vec![-1; 5];
    let mut delta: Vec<i32> = counts.clone();
    for i in 0..5
        invariant
            a == answer@,
            g == guess@,
            b == base as int,
            is_word_in(a, base),
            is_word_in(g, base),
            delta.len() == 26,
            res.len() == 5,
            forall|k: int|
                0 <= k < 26 ==> #[trigger] delta[k] == occurrences(a, 5, k + b) - matched(
                    a,
                    g,
                    i as int,
                    k + b,
                ),
            forall|j: int| 0 <= j < i ==> #[trigger] res[j] == if a[j] == g[j] { 0 } else { -1 },
            forall|j: int| i <= j < 5 ==> #[trigger] res[j] == -1,
    {
        let ac = char_at(answer, i);
        let gc = char_at(guess, i);
        if ac == gc {
            res.set(i, 0);
            let k = alpha_index(gc, base);
            proof {
                lemma_counts_split(a, g, 5, k + b);
                lemma_counts_split(a, g, i as int, k + b);
            }
            let v = delta[k] - 1;
            delta.set(k, v);
        }
    }
    assert forall|k: int| 0 <= k < 26 implies #[trigger] delta[k] == unmatched(a, g, 5, k + b) by {
        lemma_counts_split(a, g, 5, k + b);
    }
    for i in 0..5
        invariant
            a == answer@,
            g == guess@,
            b == base as int,
            is_word_in(a, base),
            is_word_in(g, base),
            delta.len() == 26,
            res.len() == 5,
            forall|k: int| 0 <= k < 26 ==> #[trigger] delta[k] == remaining_after(a, g, i as int, k + b),
            forall|j: int| 0 <= j < i ==> #[trigger] res[j] == feedback_digit(a, g, j),
            forall|j: int| i <= j < 5 ==> #[trigger] res[j] == if a[j] == g[j] { 0 } else { -1 },
    {
        if res[i] != 0 {
            let index = alpha_index(char_at(guess, i), base);
            proof {
                lemma_counts_split(a, g, 5, index + b);
            }
            if delta[index] > 0 {
                let v = delta[index] - 1;
                delta.set(index, v);
                res.set(i, 1);
            } else {
                res.set(i, 2);
            }
        }
    }
    (res, delta)
}

/// The pattern that `guess` earns against `answer`, as a base-3 number of five
/// digits (0 green, 1 yellow, 2 grey; the first letter is the most significant).
pub fn calc(answer: &String, guess: &String) -> (ret: usize)
    requires
        is_lower_word(answer@),
        is_lower_word(guess@),
    ensures
        ret == pattern_code(answer@, guess@),
        ret < 243,
{
    let ghost a = answer@;
    let ghost g = guess@;
    assert(is_word_in(a, 'a'));
    assert(is_word_in(g, 'a'));
    let delta = letter_counts(answer, 'a');
    let (res, _) = score_against(answer, guess, &delta, 'a');
    let mut ret: usize = 0;
    for i in 0..5
        invariant
            a == answer@,
            g == guess@,
            res.len() == 5,
            forall|j: int| 0 <= j < 5 ==> #[trigger] res[j] == feedback_digit(a, g, j),
            ret == pattern_value(a, g, i as int),
    {
        proof {
            lemma_pattern_value_bound(a, g, i as int);
            reveal_with_fuel(power_of_three, 6);
        }
        ret = ret * 3 + res[i] as usize;
    }
    proof {
        lemma_pattern_value_bound(a, g, 5);
        reveal_with_fuel(power_of_three, 6);
    }
    ret
}

/// The colour of a pattern digit: green, yellow or grey (written `R`).
pub open spec fn colour(d: int) -> char {
    if d == 0 {
        'G'
    } else if d == 1 {
        'Y'
    } else {
        'R'
    }
}

/// The five colours that `guess` earns against `answer`.
pub open spec fn pattern_colours(answer: Seq<char>, guess: Seq<char>) -> Seq<char> {
    Seq::new(5, |i: int| colour(feedback_digit(answer, guess, i)))
}

/// `res` divided by 3, `j` times over.
pub open spec fn shifted(res: int, j: int) -> int
    decreases j,
{
    if j <= 0 {
        res
    } else {
        shifted(res, j - 1) / 3
    }
}

/// The colours that the five lowest base-3 digits of `res` stand for, the
/// most significant of them first.
pub open spec fn decoded_colours(res: int) -> Seq<char> {
    Seq::new(5, |i: int| colour(shifted(res, 4 - i) % 3))
}

/// Turns a pattern code back into its five colours (`G`, `Y`, `R`).
pub fn decode_pattern(res: usize) -> (out: Vec<char>)
    ensures
        out@ == decoded_colours(res as int),
{
    let ghost orig = res as int;
    let mut out: Vec<char> = vec!['X'; 5];
    let mut res = res;
    for i in 0..5
        invariant
            res as int == shifted(orig, i as int),
            out.len() == 5,
            forall|j: int| 0 <= j < i ==> #[trigger] out[4 - j] == colour(shifted(orig, j) % 3),
    {
        if res % 3 == 0 {
            out.set(4 - i, 'G');
        }
        if res % 3 == 1 {
            out.set(4 - i, 'Y');
        }
        if res % 3 == 2 {
            out.set(4 - i, 'R');
        }
        res = res / 3;
    }
    assert forall|i: int| 0 <= i < 5 implies #[trigger] out@[i] == decoded_colours(orig)[i] by {
        assert(out[4 - (4 - i)] == colour(shifted(orig, 4 - i) % 3));
    }
    assert(out@ =~= decoded_colours(orig));
    out
}

proof fn lemma_shifted_pattern(answer: Seq<char>, guess: Seq<char>, j: int)
    requires
        0 <= j <= 5,
    ensures
        shifted(pattern_value(answer, guess, 5), j) == pattern_value(answer, guess, 5 - j),
    decreases j,
{
    if j > 0 {
        lemma_shifted_pattern(answer, guess, j - 1);
        lemma_pattern_value_bound(answer, guess, 5 - j);
        let x = pattern_value(answer, guess, 5 - j);
        let d = feedback_digit(answer, guess, 5 - j);
        assert((x * 3 + d) / 3 == x);
    }
}

/// Decoding the code of a pattern gives back the pattern's colours.
pub proof fn lemma_decode_inverts_pattern(answer: Seq<char>, guess: Seq<char>)
    ensures
        decoded_colours(pattern_code(answer, guess)) == pattern_colours(answer, guess),
{
    assert forall|i: int| 0 <= i < 5 implies #[trigger] decoded_colours(pattern_code(answer, guess))[i]
        == pattern_colours(answer, guess)[i] by {
        lemma_shifted_pattern(answer, guess, 4 - i);
        lemma_pattern_value_bound(answer, guess, i);
        let x = pattern_value(answer, guess, i);
        let d = feedback_digit(answer, guess, i);
        assert((x * 3 + d) % 3 == d);
    }
    assert(decoded_colours(pattern_code(answer, guess)) =~= pattern_colours(answer, guess));
}

proof fn lemma_pattern_value_zero(answer: Seq<char>, guess: Seq<char>, n: int)
    requires
        0 <= n,
    ensures
        pattern_value(answer, guess, n) == 0 <==> forall|i: int| 0 <= i < n ==> answer[i] == guess[i],
    decreases n,
{
    if n > 0 {
        lemma_pattern_value_zero(answer, guess, n - 1);
        lemma_pattern_value_bound(answer, guess, n - 1);
        if pattern_value(answer, guess, n) == 0 {
            assert(answer[n - 1] == guess[n - 1]);
        }
    }
}

/// A guess earns the all-green pattern (code 0) exactly when its first five
/// letters are those of the answer.
pub proof fn lemma_all_green_iff_same(answer: Seq<char>, guess: Seq<char>)
    ensures
        pattern_code(answer, guess) == 0 <==> forall|i: int| 0 <= i < 5 ==> answer[i] == guess[i],
{
    lemma_pattern_value_zero(answer, guess, 5);
}

proof fn lemma_unmatched_prefix(w1: Seq<char>, o1: Seq<char>, w2: Seq<char>, o2: Seq<char>, n: int, code: int)
    requires
        forall|i: int| 0 <= i < n ==> w1[i] == w2[i] && o1[i] == o2[i],
    ensures
        unmatched(w1, o1, n, code) == unmatched(w2, o2, n, code),
    decreases n,
{
    if n > 0 {
        lemma_unmatched_prefix(w1, o1, w2, o2, n - 1, code);
    }
}

/// The pattern depends only on the first five letters of answer and guess.
pub proof fn lemma_pattern_prefix(a1: Seq<char>, g1: Seq<char>, a2: Seq<char>, g2: Seq<char>)
    requires
        forall|i: int| 0 <= i < 5 ==> a1[i] == a2[i] && g1[i] == g2[i],
    ensures
        pattern_colours(a1, g1) == pattern_colours(a2, g2),
        pattern_code(a1, g1) == pattern_code(a2, g2),
{
    assert forall|i: int| 0 <= i < 5 implies feedback_digit(a1, g1, i) == feedback_digit(a2, g2, i) by {
        lemma_unmatched_prefix(g1, a1, g2, a2, i, g1[i] as int);
        lemma_unmatched_prefix(a1, g1, a2, g2, 5, g1[i] as int);
    }
    assert(pattern_colours(a1, g1) =~= pattern_colours(a2, g2));
    assert(pattern_value(a1, g1, 5) == pattern_value(a2, g2, 5)) by {
        reveal_with_fuel(pattern_value, 6);
    }
}

proof fn lemma_unmatched_upper(w: Seq<char>, o: Seq<char>, n: int, code: int)
    requires
        is_lower_word(w),
        is_lower_word(o),
        n <= 5,
    ensures
        unmatched(uppered(w), uppered(o), n, code - 32) == unmatched(w, o, n, code),
    decreases n,
{
    if n > 0 {
        lemma_unmatched_upper(w, o, n - 1, code);
        lemma_case_letters(w[n - 1]);
        lemma_case_letters(o[n - 1]);
    }
}

/// Colouring does not depend on letter case: the uppercase guess earns
/// against the uppercase answer what the lowercase guess earns against the
/// lowercase answer.
pub proof fn lemma_pattern_case_blind(answer: Seq<char>, guess: Seq<char>)
    requires
        is_lower_word(answer),
        is_lower_word(guess),
    ensures
        pattern_colours(uppered(answer), uppered(guess)) == pattern_colours(answer, guess),
        pattern_code(uppered(answer), uppered(guess)) == pattern_code(answer, guess),
{
    let ua = uppered(answer);
    let ug = uppered(guess);
    assert forall|i: int| 0 <= i < 5 implies feedback_digit(ua, ug, i) == feedback_digit(answer, guess, i) by {
        lemma_case_letters(answer[i]);
        lemma_case_letters(guess[i]);
        lemma_unmatched_upper(guess, answer, i, guess[i] as int);
        lemma_unmatched_upper(answer, guess, 5, guess[i] as int);
    }
    assert(pattern_colours(ua, ug) =~= pattern_colours(answer, guess));
    assert(pattern_value(ua, ug, 5) == pattern_value(answer, guess, 5)) by {
        reveal_with_fuel(pattern_value, 6);
    }
}

} // verus!
