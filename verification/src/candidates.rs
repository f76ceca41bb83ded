//! Which words can still be the answer after a coloured guess.

use vstd::prelude::*;
use crate::letters::{is_lower, is_lower_word, lowered, char_at, lower_char, lower_index};
use crate::feedback::{feedback_digit, unmatched, pattern_colours};

verus! {

/// Number of positions `i < n` not marked green whose letter in `word` has code `code`.
pub open spec fn open_count(word: Seq<char>, out: Seq<char>, n: int, code: int) -> nat
    decreases n,
{
    if n <= 0 {
        0
    } else {
        open_count(word, out, n - 1, code) + if out[n - 1] != 'G' && word[n - 1] as int == code {
            1nat
        } else {
            0nat
        }
    }
}

/// Number of positions `i < n` marked yellow whose guessed letter has code `code`.
pub open spec fn yellow_count(tar: Seq<char>, out: Seq<char>, n: int, code: int) -> nat
    decreases n,
{
    if n <= 0 {
        0
    } else {
        yellow_count(tar, out, n - 1, code) + if out[n - 1] == 'Y' && tar[n - 1] as int == code {
            1nat
        } else {
            0nat
        }
    }
}

/// Some position `i < n` is marked grey and its guessed letter has code `code`.
pub open spec fn has_grey(tar: Seq<char>, out: Seq<char>, n: int, code: int) -> bool
    decreases n,
{
    if n <= 0 {
        false
    } else {
        has_grey(tar, out, n - 1, code) || (out[n - 1] == 'R' && tar[n - 1] as int == code)
    }
}

/// `word` agrees with the colours `out` earned by the guess `tar`: exactly the
/// green positions hold the guessed letter; for every letter, the word has at
/// least as many copies outside the green positions as the guess has yellows
/// of it, and exactly as many when the letter was also marked grey.
pub open spec fn consistent(word: Seq<char>, out: Seq<char>, tar: Seq<char>) -> bool {
    &&& forall|i: int| 0 <= i < 5 ==> ((out[i] == 'G') <==> (word[i] == tar[i]))
    &&& forall|code: int|
        97 <= code < 123 ==> if has_grey(tar, out, 5, code) {
            open_count(word, out, 5, code) == yellow_count(tar, out, 5, code)
        } else {
            open_count(word, out, 5, code) >= yellow_count(tar, out, 5, code)
        }
}

/// The colours and the (lowercased) guess can be checked against words: the
/// letters that yellow and grey marks speak of are lowercase letters.
pub open spec fn readable_marks(out: Seq<char>, tar: Seq<char>) -> bool {
    &&& out.len() >= 5
    &&& tar.len() >= 5
    &&& forall|i: int| 0 <= i < 5 && (out[i] == 'Y' || out[i] == 'R') ==> is_lower(#[trigger] tar[i])
}

/// A candidate word that the colours can be checked against.
pub open spec fn readable_word(word: Seq<char>, out: Seq<char>) -> bool {
    &&& word.len() >= 5
    &&& forall|i: int| 0 <= i < 5 && out[i] != 'G' ==> is_lower(#[trigger] word[i])
}

pub proof fn lemma_mark_counts_bounded(word: Seq<char>, tar: Seq<char>, out: Seq<char>, n: int, code: int)
    ensures
        open_count(word, out, n, code) <= if n < 0 { 0 } else { n },
        yellow_count(tar, out, n, code) <= if n < 0 { 0 } else { n },
    decreases n,
{
    if n > 0 {
        lemma_mark_counts_bounded(word, tar, out, n - 1, code);
    }
}

/// Whether `st` agrees with the colours `out` earned by `guess` (compared in lowercase).
pub fn is_consistent(st: &String, out: &Vec<char>, guess: &String) -> (ok: bool)
    requires
        readable_marks(out@, lowered(guess@)),
        readable_word(st@, out@),
    ensures
        ok == consistent(st@, out@, lowered(guess@)),
{
    let ghost w = st@;
    let ghost o = out@;
    let ghost t = lowered(guess@);
    let mut is_ok = true;
    let mut cnt: Vec<i32> = vec![0; 26];
    let mut not: Vec<bool> = vec![false; 26];
    for i in 0..5
        invariant
            w == st@,
            o == out@,
            t == lowered(guess@),
            readable_marks(o, t),
            readable_word(w, o),
            cnt.len() == 26,
            not.len() == 26,
            is_ok == forall|j: int| 0 <= j < i ==> ((o[j] == 'G') <==> (w[j] == t[j])),
            forall|k: int|
                0 <= k < 26 ==> #[trigger] cnt[k] == open_count(w, o, i as int, k + 97) - yellow_count(
                    t,
                    o,
                    i as int,
                    k + 97,
                ),
            forall|k: int| 0 <= k < 26 ==> #[trigger] not[k] == has_grey(t, o, i as int, k + 97),
            forall|k: int| 0 <= k < 26 ==> -(i as int) <= #[trigger] cnt[k] <= i,
    {
        proof {
            assert forall|k: int| 0 <= k < 26 implies -(i as int) <= #[trigger] cnt[k] <= i by {
                lemma_mark_counts_bounded(w, t, o, i as int, k + 97);
            }
        }
        let oc = out[i];
        let sc = char_at(st, i);
        let tc = lower_char(char_at(guess, i));
        assert(tc == t[i as int]);
        assert(sc == w[i as int]);
        if oc == 'G' {
            if sc != tc {
                is_ok = false;
            }
        } else {
            if sc == tc {
                is_ok = false;
            }
            let k = lower_index(sc);
            let v = cnt[k] + 1;
            cnt.set(k, v);
        }
        if oc == 'Y' {
            let k = lower_index(tc);
            let v = cnt[k] - 1;
            cnt.set(k, v);
        }
        if oc == 'R' {
            let k = lower_index(tc);
            not.set(k, true);
        }
    }
    for k in 0..26
        invariant
            w == st@,
            o == out@,
            t == lowered(guess@),
            cnt.len() == 26,
            not.len() == 26,
            forall|k: int|
                0 <= k < 26 ==> #[trigger] cnt[k] == open_count(w, o, 5, k + 97) - yellow_count(
                    t,
                    o,
                    5,
                    k + 97,
                ),
            forall|k: int| 0 <= k < 26 ==> #[trigger] not[k] == has_grey(t, o, 5, k + 97),
            is_ok == ((forall|j: int| 0 <= j < 5 ==> ((o[j] == 'G') <==> (w[j] == t[j]))) && (
            forall|code: int|
                97 <= code < 97 + k ==> if has_grey(t, o, 5, code) {
                    open_count(w, o, 5, code) == yellow_count(t, o, 5, code)
                } else {
                    open_count(w, o, 5, code) >= yellow_count(t, o, 5, code)
                })),
    {
        if not[k] {
            if cnt[k] != 0 {
                is_ok = false;
            }
        } else {
            if cnt[k] < 0 {
                is_ok = false;
            }
        }
    }
    is_ok
}

/// The words of `list` that agree with the colours `out` earned by `guess`,
/// in the order of `list`.
pub fn keep_consistent(list: &Vec<String>, out: &Vec<char>, guess: &String) -> (kept: Vec<String>)
    requires
        readable_marks(out@, lowered(guess@)),
        forall|j: int| 0 <= j < list@.len() ==> readable_word(#[trigger] list@[j]@, out@),
    ensures
        kept.deep_view() == list.deep_view().filter(
            |w: Seq<char>| consistent(w, out@, lowered(guess@)),
        ),
{
    let ghost pred = |w: Seq<char>| consistent(w, out@, lowered(guess@));
    let mut new_list: Vec<String> = Vec::new();
    for i in 0..list.len()
        invariant
            readable_marks(out@, lowered(guess@)),
            forall|j: int| 0 <= j < list@.len() ==> readable_word(#[trigger] list@[j]@, out@),
            pred == (|w: Seq<char>| consistent(w, out@, lowered(guess@))),
            new_list.deep_view() == list.deep_view().take(i as int).filter(pred),
    {
        let st = &list[i];
        let ok = is_consistent(st, out, guess);
        proof {
            let dv = list.deep_view();
            assert(dv.take(i + 1).drop_last() =~= dv.take(i as int));
            assert(dv.take(i + 1).last() == st@);
            reveal_with_fuel(Seq::filter, 1);
        }
        if ok {
            new_list.push(st.clone());
            proof {
                assert(new_list.deep_view() =~= list.deep_view().take(i as int).filter(pred).push(st@));
            }
        }
    }
    proof {
        assert(list.deep_view().take(list.len() as int) =~= list.deep_view());
    }
    new_list
}

proof fn lemma_open_count_is_unmatched(answer: Seq<char>, tar: Seq<char>, n: int, code: int)
    requires
        n <= 5,
        answer.len() >= 5,
        tar.len() >= 5,
    ensures
        open_count(answer, pattern_colours(answer, tar), n, code) == unmatched(answer, tar, n, code),
    decreases n,
{
    if n > 0 {
        lemma_open_count_is_unmatched(answer, tar, n - 1, code);
    }
}

proof fn lemma_yellow_count_is_min(answer: Seq<char>, tar: Seq<char>, n: int, code: int)
    requires
        0 <= n <= 5,
        answer.len() >= 5,
        tar.len() >= 5,
    ensures
        yellow_count(tar, pattern_colours(answer, tar), n, code) == if unmatched(tar, answer, n, code)
            < unmatched(answer, tar, 5, code) {
            unmatched(tar, answer, n, code)
        } else {
            unmatched(answer, tar, 5, code)
        },
        has_grey(tar, pattern_colours(answer, tar), n, code) <==> unmatched(tar, answer, n, code)
            > unmatched(answer, tar, 5, code),
    decreases n,
{
    if n > 0 {
        lemma_yellow_count_is_min(answer, tar, n - 1, code);
        let i = n - 1;
        if tar[i] != answer[i] && tar[i] as int == code {
            assert(unmatched(answer, tar, i, code) == unmatched(answer, tar, i, code));
        }
    }
}

/// The answer itself always agrees with the colours that any guess earns
/// against it: filtering candidates by true feedback never drops the answer.
pub proof fn lemma_answer_stays_candidate(answer: Seq<char>, guess: Seq<char>)
    requires
        is_lower_word(answer),
        is_lower_word(guess),
    ensures
        consistent(answer, pattern_colours(answer, guess), guess),
{
    let out = pattern_colours(answer, guess);
    assert forall|code: int| 97 <= code < 123 implies if has_grey(guess, out, 5, code) {
        open_count(answer, out, 5, code) == yellow_count(guess, out, 5, code)
    } else {
        open_count(answer, out, 5, code) >= yellow_count(guess, out, 5, code)
    } by {
        lemma_open_count_is_unmatched(answer, guess, 5, code);
        lemma_yellow_count_is_min(answer, guess, 5, code);
    }
}

proof fn lemma_open_count_same_greens(w: Seq<char>, out: Seq<char>, tar: Seq<char>, n: int, code: int)
    requires
        n <= 5,
        forall|i: int| 0 <= i < 5 ==> ((out[i] == 'G') <==> (w[i] == tar[i])),
    ensures
        open_count(w, out, n, code) == unmatched(w, tar, n, code),
    decreases n,
{
    if n > 0 {
        lemma_open_count_same_greens(w, out, tar, n - 1, code);
    }
}

proof fn lemma_unmatched_same_greens(g: Seq<char>, a: Seq<char>, w: Seq<char>, n: int, code: int)
    requires
        forall|i: int| 0 <= i < n ==> ((g[i] == a[i]) <==> (g[i] == w[i])),
    ensures
        unmatched(g, a, n, code) == unmatched(g, w, n, code),
    decreases n,
{
    if n > 0 {
        lemma_unmatched_same_greens(g, a, w, n - 1, code);
    }
}

proof fn lemma_unmatched_monotone(w: Seq<char>, o: Seq<char>, m: int, n: int, code: int)
    requires
        0 <= m <= n,
    ensures
        unmatched(w, o, m, code) <= unmatched(w, o, n, code),
    decreases n - m,
{
    if m < n {
        lemma_unmatched_monotone(w, o, m, n - 1, code);
    }
}

/// The candidates that agree with the colours a guess earned against the
/// answer are exactly the words against which the guess would have earned
/// the same colours.
pub proof fn lemma_consistent_iff_same_colours(answer: Seq<char>, guess: Seq<char>, w: Seq<char>)
    requires
        is_lower_word(answer),
        is_lower_word(guess),
        is_lower_word(w),
    ensures
        consistent(w, pattern_colours(answer, guess), guess) <==> pattern_colours(w, guess)
            == pattern_colours(answer, guess),
{
    let out = pattern_colours(answer, guess);
    if pattern_colours(w, guess) == out {
        lemma_answer_stays_candidate(w, guess);
    }
    if consistent(w, out, guess) {
        assert forall|i: int| 0 <= i < 5 implies feedback_digit(w, guess, i) == feedback_digit(answer, guess, i) by {
            assert((out[i] == 'G') <==> (w[i] == guess[i]));
            if w[i] != guess[i] {
                let c = guess[i] as int;
                assert(97 <= c < 123);
                lemma_unmatched_same_greens(guess, answer, w, i, c);
                lemma_unmatched_same_greens(guess, answer, w, 5, c);
                lemma_open_count_same_greens(w, out, guess, 5, c);
                lemma_yellow_count_is_min(answer, guess, 5, c);
                lemma_unmatched_monotone(guess, answer, i + 1, 5, c);
            }
        }
        assert(pattern_colours(w, guess) =~= out);
    }
}

} // verus!
