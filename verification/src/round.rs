//! One round of the game: the answer, the guesses that counted, their
//! colours, the keyboard and the hard-mode state.

use vstd::prelude::*;
use crate::letters::{is_upper_word, is_lower_word, is_word_in, uppered, lemma_case_letters};
use crate::feedback::{
    occurrences, remaining_after, feedback_digit, pattern_colours, letter_counts, score_against,
};
use crate::game::{key_after, update_keyboard, check, check_diffcult, hard_mode_allows};
use crate::dict::Dict;
use crate::stats::has_match;

verus! {

/// The keyboard after the first `n` of `guesses` (26 keys, `A` first; `X` untouched).
pub open spec fn keyboard(word: Seq<char>, guesses: Seq<Seq<char>>, n: int) -> Seq<char>
    decreases n,
{
    if n <= 0 {
        Seq::new(26, |k: int| 'X')
    } else {
        let prev = keyboard(word, guesses, n - 1);
        Seq::new(
            26,
            |k: int| key_after(prev[k], guesses[n - 1], pattern_colours(word, guesses[n - 1]), k + 65),
        )
    }
}

proof fn lemma_keyboard_prefix(word: Seq<char>, s1: Seq<Seq<char>>, s2: Seq<Seq<char>>, n: int)
    requires
        forall|j: int| 0 <= j < n ==> s1[j] == s2[j],
    ensures
        keyboard(word, s1, n) == keyboard(word, s2, n),
    decreases n,
{
    if n > 0 {
        lemma_keyboard_prefix(word, s1, s2, n - 1);
    }
}

/// For each letter (`A` first), the copies of it in `word` that the guess `g`
/// leaves unaccounted for by greens and yellows.
pub open spec fn remaining_counts(word: Seq<char>, g: Seq<char>) -> Seq<i32> {
    Seq::new(26, |k: int| remaining_after(word, g, 5, k + 65) as i32)
}

/// All five colours are green.
pub open spec fn all_green(out: Seq<char>) -> bool {
    forall|i: int| 0 <= i < 5 ==> #[trigger] out[i] == 'G'
}

/// The colours are all green exactly when the first five letters of guess
/// and answer agree.
pub proof fn lemma_all_green_iff_found(answer: Seq<char>, guess: Seq<char>)
    ensures
        all_green(pattern_colours(answer, guess)) <==> forall|i: int| 0 <= i < 5 ==> answer[i] == guess[i],
{
    if all_green(pattern_colours(answer, guess)) {
        assert forall|i: int| 0 <= i < 5 implies answer[i] == guess[i] by {
            assert(pattern_colours(answer, guess)[i] == 'G');
        }
    }
}

/// Every accepted word of the dictionary is a lowercase word.
pub open spec fn dict_words_lower(dict: &Dict) -> bool {
    forall|j: int| 0 <= j < dict.ACCEPTABLE@.len() ==> is_lower_word(#[trigger] dict.ACCEPTABLE@[j]@)
}

/// With a dictionary of lowercase words, every guess that matches an
/// accepted word is an uppercase word.
pub proof fn lemma_matching_guess_is_upper(dict: &Dict, guess: Seq<char>)
    requires
        dict_words_lower(dict),
    ensures
        has_match(dict.ACCEPTABLE.deep_view(), guess) ==> is_upper_word(guess),
{
    if has_match(dict.ACCEPTABLE.deep_view(), guess) {
        let w = dict.ACCEPTABLE.deep_view();
        let j = choose|j: int| 0 <= j < w.len() && uppered(#[trigger] w[j]) == guess;
        assert(is_lower_word(dict.ACCEPTABLE@[j]@));
        assert forall|i: int| 0 <= i < 5 implies crate::letters::is_upper(#[trigger] guess[i]) by {
            lemma_case_letters(w[j][i]);
        }
    }
}

/// What became of a submitted guess.
pub enum GuessOutcome {
    /// Not an accepted word, or not allowed in hard mode: nothing changed.
    Invalid,
    /// The guess counted; these are its colours.
    Scored(Vec<char>),
}

/// A round in progress (or over).
pub struct Round {
    /// The answer, in uppercase.
    pub word: String,
    /// How often each letter occurs in the answer.
    pub word_vec: Vec<i32>,
    /// The keyboard.
    pub status: Vec<char>,
    /// Number of guesses that counted.
    pub count: usize,
    /// The answer has been found.
    pub success: bool,
    /// The colours of each counted guess.
    pub res: Vec<Vec<char>>,
    /// The counted guesses.
    pub words: Vec<String>,
    /// The unaccounted letters after the last counted guess.
    pub pre_delta: Vec<i32>,
}

impl Round {
    pub open spec fn wf(&self) -> bool {
        &&& is_upper_word(self.word@)
        &&& self.word_vec.len() == 26
        &&& forall|k: int| 0 <= k < 26 ==> #[trigger] self.word_vec[k] == occurrences(self.word@, 5, k + 65)
        &&& self.count <= 6
        &&& self.res.len() == self.count
        &&& self.words.len() == self.count
        &&& forall|j: int| 0 <= j < self.count ==> is_upper_word(#[trigger] self.words@[j]@)
        &&& forall|j: int| 0 <= j < self.count ==> #[trigger] self.res@[j]@ == pattern_colours(self.word@, self.words@[j]@)
        &&& self.status@ == keyboard(self.word@, self.words.deep_view(), self.count as int)
        &&& self.success == (self.count > 0 && all_green(self.res@[self.count - 1]@))
        &&& forall|j: int| 0 <= j < self.count - 1 ==> !all_green(#[trigger] self.res@[j]@)
        &&& (self.count > 0 && !self.success) ==> self.pre_delta@ == remaining_counts(
            self.word@,
            self.words@[self.count - 1]@,
        )
    }

    /// The round is over: the answer was found or six guesses counted.
    pub open spec fn is_over(&self) -> bool {
        self.success || self.count >= 6
    }

    /// A new round with answer `word` (uppercase).
    pub fn new(word: &String) -> (r: Round)
        requires
            is_upper_word(word@),
        ensures
            r.wf(),
            r.word@ == word@,
            r.count == 0,
            !r.success,
            r.pre_delta@.len() == 0,
    {
        assert(is_word_in(word@, 'A'));
        let word_vec = letter_counts(word, 'A');
        let status: Vec<char> = vec!['X'; 26];
        let r = Round {
            word: word.clone(),
            word_vec,
            status,
            count: 0,
            success: false,
            res: Vec::new(),
            words: Vec::new(),
            pre_delta: Vec::new(),
        };
        assert(r.status@ =~= keyboard(r.word@, r.words.deep_view(), 0));
        r
    }

    /// The guess `guess` (uppercase) counts when it is an accepted word and,
    /// in hard mode, keeps every previous green and uses every letter
    /// revealed so far.
    pub open spec fn accepts(&self, guess: Seq<char>, dict: &Dict, difficult: bool) -> bool {
        &&& has_match(dict.ACCEPTABLE.deep_view(), guess)
        &&& !(self.count > 0 && difficult && !hard_mode_allows(
            self.pre_delta@,
            remaining_counts(self.word@, guess),
            self.res@[self.count - 1]@,
            pattern_colours(self.word@, guess),
        ))
    }

    /// Plays `guess` in the round.
    pub fn submit(&mut self, guess: &String, dict: &Dict, difficult: bool) -> (outcome: GuessOutcome)
        requires
            old(self).wf(),
            !old(self).is_over(),
            has_match(dict.ACCEPTABLE.deep_view(), guess@) ==> is_upper_word(guess@),
        ensures
            final(self).wf(),
            old(self).accepts(guess@, dict, difficult) ==> {
                &&& outcome matches GuessOutcome::Scored(out) && out@ == pattern_colours(old(self).word@, guess@)
                &&& final(self).word == old(self).word
                &&& final(self).count == old(self).count + 1
                &&& final(self).words.deep_view() == old(self).words.deep_view().push(guess@)
                &&& final(self).success == all_green(pattern_colours(old(self).word@, guess@))
                &&& final(self).success == forall|i: int| 0 <= i < 5 ==> old(self).word@[i] == guess@[i]
            },
            !old(self).accepts(guess@, dict, difficult) ==> outcome is Invalid && *final(self) == *old(self),
    {
        if !check(guess, dict) {
            return GuessOutcome::Invalid;
        }
        let ghost g = guess@;
        let ghost a = self.word@;
        proof {
            assert(is_word_in(g, 'A'));
            assert(is_word_in(a, 'A'));
        }
        let (digits, delta) = score_against(&self.word, guess, &self.word_vec, 'A');
        let mut out: Vec<char> = vec!['S'; 5];
        for i in 0..5
            invariant
                a == self.word@,
                g == guess@,
                digits.len() == 5,
                forall|j: int| 0 <= j < 5 ==> #[trigger] digits[j] == feedback_digit(a, g, j),
                out.len() == 5,
                forall|j: int| 0 <= j < i ==> #[trigger] out[j] == pattern_colours(a, g)[j],
        {
            if digits[i] == 0 {
                out.set(i, 'G');
            } else if digits[i] == 1 {
                out.set(i, 'Y');
            } else {
                out.set(i, 'R');
            }
        }
        assert(out@ =~= pattern_colours(a, g));
        assert(delta@ =~= remaining_counts(a, g));
        if self.count > 0 && difficult && !check_diffcult(&self.pre_delta, &delta, &self.res[self.count - 1], &out) {
            return GuessOutcome::Invalid;
        }
        let ghost old_words = self.words.deep_view();
        let new_status = update_keyboard(&self.status, guess, &out);
        let mut greens: usize = 0;
        for i in 0..5
            invariant
                out.len() == 5,
                greens <= i,
                greens == i <==> forall|j: int| 0 <= j < i ==> #[trigger] out[j] == 'G',
        {
            if out[i] == 'G' {
                greens = greens + 1;
            }
        }
        self.count = self.count + 1;
        self.status = new_status;
        self.res.push(out.clone());
        self.words.push(guess.clone());
        if greens == 5 {
            self.success = true;
        } else {
            self.pre_delta = delta;
        }
        proof {
            lemma_all_green_iff_found(a, g);
            let n = self.count as int;
            assert(self.words.deep_view() =~= old_words.push(g));
            lemma_keyboard_prefix(a, self.words.deep_view(), old_words, n - 1);
            assert(self.status@ =~= keyboard(a, self.words.deep_view(), n));
        }
        GuessOutcome::Scored(out)
    }
}

} // verus!
