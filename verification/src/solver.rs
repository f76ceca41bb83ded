//! The solver's side: the candidate lists it narrows down and the pattern
//! statistics from which it ranks guesses.

use vstd::prelude::*;
use crate::letters::{is_lower_word, lowered};
use crate::feedback::pattern_code;
use crate::candidates::{consistent, keep_consistent, readable_marks, readable_word};

verus! {

/// The words the solver may still guess (`list`) and the words that may
/// still be the answer (`ans_list`).
pub struct Help {
    pub list: Vec<String>,
    pub ans_list: Vec<String>,
}

impl Help {
    /// Keeps, in both lists, only the words that agree with the colours `out`
    /// that `guess` earned.
    pub fn update(&mut self, out: &Vec<char>, guess: &String)
        requires
            readable_marks(out@, lowered(guess@)),
            forall|j: int| 0 <= j < old(self).list@.len() ==> readable_word(#[trigger] old(self).list@[j]@, out@),
            forall|j: int|
                0 <= j < old(self).ans_list@.len() ==> readable_word(#[trigger] old(self).ans_list@[j]@, out@),
        ensures
            final(self).list.deep_view() == old(self).list.deep_view().filter(
                |w: Seq<char>| consistent(w, out@, lowered(guess@)),
            ),
            final(self).ans_list.deep_view() == old(self).ans_list.deep_view().filter(
                |w: Seq<char>| consistent(w, out@, lowered(guess@)),
            ),
    {
        let new_list = keep_consistent(&self.list, out, guess);
        self.list = new_list;
        let new_ans = keep_consistent(&self.ans_list, out, guess);
        self.ans_list = new_ans;
    }
}

/// How many answers `w` in `answers` give `guess` the pattern `p`.
pub open spec fn pattern_count(answers: Seq<Seq<char>>, guess: Seq<char>, p: int) -> nat {
    answers.filter(|w: Seq<char>| pattern_code(w, guess) == p).len()
}

/// For every pattern code `p < 243`, the number of answers in `ans_list`
/// against which `guess` earns `p`.
pub fn pattern_counts(guess: &String, ans_list: &Vec<String>) -> (count: Vec<usize>)
    requires
        is_lower_word(guess@),
        forall|j: int| 0 <= j < ans_list@.len() ==> is_lower_word(#[trigger] ans_list@[j]@),
    ensures
        count.len() == 243,
        forall|p: int| 0 <= p < 243 ==> #[trigger] count[p] == pattern_count(ans_list.deep_view(), guess@, p),
{
    let ghost answers = ans_list.deep_view();
    let mut count: Vec<usize> = vec![0; 243];
    for i in 0..ans_list.len()
        invariant
            answers == ans_list.deep_view(),
            is_lower_word(guess@),
            forall|j: int| 0 <= j < ans_list@.len() ==> is_lower_word(#[trigger] ans_list@[j]@),
            count.len() == 243,
            forall|p: int| 0 <= p < 243 ==> #[trigger] count[p] == pattern_count(answers.take(i as int), guess@, p),
            forall|p: int| 0 <= p < 243 ==> #[trigger] count[p] <= i,
    {
        let r = crate::feedback::calc(&ans_list[i], guess);
        proof {
            assert(answers.take(i + 1).drop_last() =~= answers.take(i as int));
            assert(answers.take(i + 1).last() == ans_list@[i as int]@);
            reveal_with_fuel(Seq::filter, 1);
        }
        let v = count[r] + 1;
        count.set(r, v);
    }
    proof {
        assert(answers.take(ans_list.len() as int) =~= answers);
    }
    count
}

/// The pattern codes that `guess` earns against each word of `answers`, in order.
pub fn pattern_row(answers: &Vec<String>, guess: &String) -> (row: Vec<usize>)
    requires
        is_lower_word(guess@),
        forall|j: int| 0 <= j < answers@.len() ==> is_lower_word(#[trigger] answers@[j]@),
    ensures
        row.len() == answers.len(),
        forall|j: int| 0 <= j < answers@.len() ==> #[trigger] row[j] == pattern_code(answers@[j]@, guess@),
{
    let mut row: Vec<usize> = Vec::new();
    for j in 0..answers.len()
        invariant
            is_lower_word(guess@),
            forall|k: int| 0 <= k < answers@.len() ==> is_lower_word(#[trigger] answers@[k]@),
            row.len() == j,
            forall|k: int| 0 <= k < j ==> #[trigger] row[k] == pattern_code(answers@[k]@, guess@),
    {
        let r = crate::feedback::calc(&answers[j], guess);
        row.push(r);
    }
    row
}

} // verus!
