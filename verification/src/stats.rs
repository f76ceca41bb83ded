//! How often each word has been guessed, and the most guessed words.

use vstd::prelude::*;
use crate::letters::{uppered, matches_upper};

verus! {

/// Position `i` of `words` is the first whose uppercase is `guess`.
pub open spec fn is_first_match(words: Seq<Seq<char>>, guess: Seq<char>, i: int) -> bool {
    &&& 0 <= i < words.len()
    &&& uppered(words[i]) == guess
    &&& forall|j: int| 0 <= j < i ==> uppered(#[trigger] words[j]) != guess
}

/// The first position of `words` whose uppercase is `guess`.
pub open spec fn first_match(words: Seq<Seq<char>>, guess: Seq<char>) -> int {
    choose|i: int| is_first_match(words, guess, i)
}

/// Some word of `words` is `guess` in uppercase.
pub open spec fn has_match(words: Seq<Seq<char>>, guess: Seq<char>) -> bool {
    exists|i: int| 0 <= i < words.len() && uppered(#[trigger] words[i]) == guess
}

proof fn lemma_first_match_unique(words: Seq<Seq<char>>, guess: Seq<char>, i: int)
    requires
        is_first_match(words, guess, i),
    ensures
        first_match(words, guess) == i,
{
    let k = first_match(words, guess);
    assert(is_first_match(words, guess, k));
    if k < i {
        assert(uppered(words[k]) != guess);
    } else if i < k {
        assert(uppered(words[i]) != guess);
    }
}

/// Word `x` ranks before word `y`: guessed more often, or as often and listed earlier.
pub open spec fn ranks_before(count: Seq<i32>, x: usize, y: usize) -> bool {
    count[x as int] > count[y as int] || (count[x as int] == count[y as int] && x < y)
}

/// `list` holds only guessed words (count above zero), and every guessed
/// word left out of it ranks after each of its first five entries, which
/// needs a full list of six.
pub open spec fn leads_with(count: Seq<i32>, list: Seq<usize>) -> bool {
    &&& forall|j: int| 0 <= j < list.len() ==> count[#[trigger] list[j] as int] > 0
    &&& forall|x: usize|
        x < count.len() && count[x as int] > 0 && !#[trigger] list.contains(x) ==> list.len() == 6 && forall|j: int|
            0 <= j < 5 ==> ranks_before(count, #[trigger] list[j], x)
}

/// What one `Stats::update` with `guess` does, from `before` to `after`: the
/// word `idx` (the first of `words` whose uppercase is `guess`) is counted
/// once more and moved up the leading list (into it if missing, taking the
/// sixth place when the list is full), which stays well formed, ranked and
/// leading.
pub open spec fn update_step(before: Stats, after: Stats, words: Seq<Seq<char>>, guess: Seq<char>) -> bool {
    let idx = first_match(words, guess) as usize;
    &&& has_match(words, guess)
    &&& is_first_match(words, guess, first_match(words, guess))
    &&& first_match(words, guess) < before.count.len()
    &&& before.count[idx as int] < i32::MAX
    &&& after.wf()
    &&& before.leads() ==> after.leads()
    &&& before.ranked() ==> after.ranked()
    &&& after.count@ == before.count@.update(idx as int, (before.count[idx as int] + 1) as i32)
    &&& forall|x: usize| after.list@.contains(x) <==> before.stays_listed(idx, x)
    &&& after.list.len() == if before.list@.contains(idx) {
        before.list.len() as int
    } else if before.list.len() < 6 {
        before.list.len() + 1
    } else {
        6
    }
}

/// Number of the first `n` of `guesses` whose first matching word in `words`
/// is the word at position `x`.
pub open spec fn tally(words: Seq<Seq<char>>, guesses: Seq<Seq<char>>, n: int, x: int) -> int
    decreases n,
{
    if n <= 0 {
        0
    } else {
        tally(words, guesses, n - 1, x) + if first_match(words, guesses[n - 1]) == x { 1int } else { 0int }
    }
}

proof fn lemma_stats_after_prefix(states: Seq<Stats>, words: Seq<Seq<char>>, guesses: Seq<Seq<char>>, n: int)
    requires
        states.len() == guesses.len() + 1,
        0 <= n <= guesses.len(),
        states[0].count.len() <= i32::MAX,
        forall|k: int| 0 <= k < states[0].count.len() ==> #[trigger] states[0].count[k] == 0,
        states[0].list.len() == 0,
        forall|k: int| 0 <= k < guesses.len() ==> #[trigger] update_step(states[k], states[k + 1], words, guesses[k]),
    ensures
        states[n].wf(),
        states[n].leads(),
        states[n].ranked(),
        states[n].count.len() == states[0].count.len(),
        forall|x: int| 0 <= x < states[n].count.len() ==> #[trigger] states[n].count[x] == tally(words, guesses, n, x),
    decreases n,
{
    if n == 0 {
        lemma_fresh_stats(states[0]);
    } else {
        lemma_stats_after_prefix(states, words, guesses, n - 1);
        let k = n - 1;
        assert(update_step(states[k], states[k + 1], words, guesses[k]));
        assert(states[k + 1] == states[n]);
        let idx = first_match(words, guesses[k]);
        assert(idx >= 0);
        assert forall|x: int| 0 <= x < states[n].count.len() implies #[trigger] states[n].count[x] == tally(
            words,
            guesses,
            n,
            x,
        ) by {
            assert(states[k].count.len() == states[n].count.len());
            assert(states[k].count[x] == tally(words, guesses, k, x));
            assert(tally(words, guesses, n, x) == tally(words, guesses, k, x) + if idx == x { 1int } else { 0int });
            assert(states[n].count[x] == states[n].count@[x]);
            assert(states[k].count[x] == states[k].count@[x]);
            if x == idx {
                assert(states[n].count@[x] == states[k].count@[x] + 1);
            } else {
                assert(states[n].count@[x] == states[k].count@[x]);
            }
        }
    }
}

/// Statistics built by updates from fresh ones: `states[0]` has every count
/// zero and an empty list, and each `states[k + 1]` is what updating
/// `states[k]` with `guesses[k]` gives. Then each word's count is the number
/// of guesses that were that word, and the list shows the ranking of the
/// guessed words: its first five entries, in order, are the best of them by
/// count (more first) then position (earlier first), and while it holds
/// fewer than six it holds exactly the guessed words.
pub proof fn lemma_stats_after_updates(states: Seq<Stats>, words: Seq<Seq<char>>, guesses: Seq<Seq<char>>)
    requires
        states.len() == guesses.len() + 1,
        states[0].count.len() <= i32::MAX,
        forall|k: int| 0 <= k < states[0].count.len() ==> #[trigger] states[0].count[k] == 0,
        states[0].list.len() == 0,
        forall|k: int| 0 <= k < guesses.len() ==> #[trigger] update_step(states[k], states[k + 1], words, guesses[k]),
    ensures
        states.last().wf(),
        states.last().ranked(),
        states.last().count.len() == states[0].count.len(),
        forall|x: int|
            0 <= x < states.last().count.len() ==> #[trigger] states.last().count[x] == tally(
                words,
                guesses,
                guesses.len() as int,
                x,
            ),
        forall|j: int, x: usize|
            0 <= j < 5 && j < states.last().list.len() && x < states.last().count.len()
                && states.last().count[x as int] > 0 && !states.last().list@.take(j + 1).contains(x)
                ==> #[trigger] ranks_before(states.last().count@, states.last().list[j], x),
        states.last().list.len() < 6 ==> forall|x: usize|
            x < states.last().count.len() ==> (#[trigger] states.last().list@.contains(x)
                <==> states.last().count[x as int] > 0),
{
    lemma_stats_after_prefix(states, words, guesses, guesses.len() as int);
    lemma_top_is_best(states.last());
}

/// Fresh statistics (every count zero, nothing listed) are well formed and
/// their list leads.
pub proof fn lemma_fresh_stats(s: Stats)
    requires
        s.count.len() <= i32::MAX,
        forall|k: int| 0 <= k < s.count.len() ==> #[trigger] s.count[k] == 0,
        s.list.len() == 0,
    ensures
        s.wf(),
        s.leads(),
        s.ranked(),
{
}

/// The shown list is the ranking of the guessed words: each of the first
/// five entries ranks before every guessed word not shown before it, and
/// while fewer than six words are listed, exactly the guessed words are.
pub proof fn lemma_top_is_best(s: Stats)
    requires
        s.wf(),
        s.leads(),
    ensures
        forall|j: int, x: usize|
            0 <= j < 5 && j < s.list.len() && x < s.count.len() && s.count[x as int] > 0
                && !s.list@.take(j + 1).contains(x) ==> #[trigger] ranks_before(s.count@, s.list[j], x),
        s.list.len() < 6 ==> forall|x: usize|
            x < s.count.len() ==> (#[trigger] s.list@.contains(x) <==> s.count[x as int] > 0),
{
    assert forall|j: int, x: usize|
        0 <= j < 5 && j < s.list.len() && x < s.count.len() && s.count[x as int] > 0
            && !s.list@.take(j + 1).contains(x) implies #[trigger] ranks_before(s.count@, s.list[j], x) by {
        if s.list@.contains(x) {
            let k = choose|k: int| 0 <= k < s.list@.len() && s.list@[k] == x;
            if k <= j {
                assert(s.list@.take(j + 1)[k] == x);
            }
        }
    }
    if s.list.len() < 6 {
        assert forall|x: usize| x < s.count.len() implies (#[trigger] s.list@.contains(x) <==> s.count[x as int] > 0) by {
            if s.list@.contains(x) {
                let k = choose|k: int| 0 <= k < s.list@.len() && s.list@[k] == x;
                assert(s.count[s.list[k] as int] > 0);
            }
        }
    }
}

/// Guess counts per word (by position in the word list) and the leading words.
pub struct Stats {
    pub count: Vec<i32>,
    pub list: Vec<usize>,
}

impl Stats {
    /// `list` holds at most six distinct word positions, ordered by `ranks_before`.
    pub open spec fn wf(&self) -> bool {
        &&& self.count.len() <= i32::MAX
        &&& self.list.len() <= 6
        &&& forall|k: int| 0 <= k < self.count.len() ==> #[trigger] self.count[k] >= 0
        &&& forall|j: int| 0 <= j < self.list.len() ==> #[trigger] self.list[j] < self.count.len()
        &&& forall|a: int, b: int|
            0 <= a < b < self.list.len() ==> ranks_before(self.count@, #[trigger] self.list[a], #[trigger] self.list[b])
    }

    /// The leading list holds at most six distinct guessed words, each a valid
    /// position, ranked strictly by `ranks_before`.
    pub open spec fn ranked(&self) -> bool {
        &&& self.list.len() <= 6
        &&& forall|j: int|
            0 <= j < self.list.len() ==> #[trigger] self.list[j] < self.count.len() && self.count[self.list[j] as int] > 0
        &&& forall|a: int, b: int| 0 <= a < b < self.list.len() ==> #[trigger] self.list[a] != #[trigger] self.list[b]
        &&& forall|a: int, b: int|
            0 <= a < b < self.list.len() ==> ranks_before(self.count@, #[trigger] self.list[a], #[trigger] self.list[b])
    }

    /// The leading list holds the best guessed words: see `leads_with`.
    pub open spec fn leads(&self) -> bool {
        leads_with(self.count@, self.list@)
    }

    /// Whether `x` stays in the leading list when `idx` is counted once more:
    /// it was there or is `idx`, and is not the sixth word pushed out by a newcomer.
    pub open spec fn stays_listed(&self, idx: usize, x: usize) -> bool {
        x == idx || (self.list@.contains(x) && !(!self.list@.contains(idx) && self.list.len() == 6
            && x == self.list[5]))
    }

    /// Counts one more guess of `guess` (the uppercase of a word of `words`)
    /// and moves that word up the leading list: into it if missing (taking the
    /// sixth place when the list is full), then past every word it now ranks
    /// before.
    pub fn update(&mut self, guess: &String, words: &Vec<String>)
        requires
            old(self).wf(),
            has_match(words.deep_view(), guess@),
            first_match(words.deep_view(), guess@) < old(self).count.len(),
            old(self).count[first_match(words.deep_view(), guess@)] < i32::MAX,
        ensures
            update_step(*old(self), *final(self), words.deep_view(), guess@),
    {
        let index = Stats::get_id(guess, words);
        let ghost old_list = self.list@;
        let ghost old_count = self.count@;
        let v = self.count[index] + 1;
        self.count.set(index, v);
        let mut now: usize = usize::MAX;
        let mut i: usize = 0;
        while i < self.list.len()
            invariant
                self.list@ == old_list,
                i <= self.list.len(),
                now == usize::MAX || (now < self.list.len() && self.list[now as int] == index),
                now == usize::MAX ==> forall|j: int| 0 <= j < i ==> #[trigger] self.list[j] != index,
            decreases self.list.len() - i,
        {
            if now == usize::MAX && self.list[i] == index {
                now = i;
            }
            i = i + 1;
        }
        let ghost found = now != usize::MAX;
        assert(found <==> old_list.contains(index));
        if now == usize::MAX {
            if self.list.len() < 6 {
                self.list.push(index);
                now = self.list.len() - 1;
            } else {
                self.list.set(5, index);
                now = 5;
            }
        }
        proof {
            assert forall|x: usize| self.list@.contains(x) <==> old(self).stays_listed(index, x) by {
                if self.list@.contains(x) {
                    let k = choose|k: int| 0 <= k < self.list@.len() && self.list@[k] == x;
                    if x != index {
                        assert(old_list[k] == x);
                        if !found && old_list.len() == 6 && x == old_list[5] {
                            assert(k != 5);
                            if k < 5 {
                                assert(ranks_before(old_count, old_list[k], old_list[5]));
                            }
                        }
                    }
                }
                if old(self).stays_listed(index, x) {
                    if x == index {
                        assert(self.list@[now as int] == x);
                    } else {
                        let k = choose|k: int| 0 <= k < old_list.len() && old_list[k] == x;
                        assert(self.list@[k] == x);
                    }
                }
            }
        }
        proof {
            if old(self).leads() {
                assert forall|j: int| 0 <= j < self.list.len() implies self.count@[#[trigger] self.list[j] as int] > 0 by {
                    if self.list[j] != index {
                        assert(self.list@.contains(self.list[j]));
                        assert(old(self).stays_listed(index, self.list[j]));
                        let k = choose|k: int| 0 <= k < old_list.len() && old_list[k] == self.list[j];
                        assert(old_count[old_list[k] as int] > 0);
                    }
                }
                assert forall|x: usize|
                    x < self.count.len() && self.count@[x as int] > 0 && !#[trigger] self.list@.contains(x) implies
                    self.list.len() == 6 && forall|j: int| 0 <= j < 5 ==> ranks_before(self.count@, #[trigger] self.list[j], x) by {
                    assert(self.list@[now as int] == index);
                    assert(x != index);
                    assert(!old(self).stays_listed(index, x));
                    if old_list.contains(x) {
                        assert(x == old_list[5]);
                        assert forall|j: int| 0 <= j < 5 implies ranks_before(self.count@, #[trigger] self.list[j], x) by {
                            assert(ranks_before(old_count, old_list[j], old_list[5]));
                            assert(self.list[j] == old_list[j]);
                        }
                    } else {
                        assert(old_list.len() == 6);
                        assert forall|j: int| 0 <= j < 5 implies ranks_before(self.count@, #[trigger] self.list[j], x) by {
                            assert(ranks_before(old_count, old_list[j], x));
                            assert(self.list[j] == old_list[j]);
                        }
                    }
                }
            }
        }
        let ghost placed_len = self.list.len();
        assert(placed_len == if old_list.contains(index) {
            old_list.len() as int
        } else if old_list.len() < 6 {
            old_list.len() + 1int
        } else {
            6int
        });
        let mut moving = true;
        while now > 0 && moving
            invariant
                self.list.len() == placed_len,
                old(self).leads() ==> leads_with(self.count@, self.list@),
                !moving ==> now > 0 && !ranks_before(self.count@, index, self.list[now - 1]),
                self.count@ == old_count.update(index as int, (old_count[index as int] + 1) as i32),
                self.count.len() <= i32::MAX,
                self.list.len() <= 6,
                now < self.list.len(),
                self.list[now as int] == index,
                forall|j: int| 0 <= j < self.list.len() ==> #[trigger] self.list[j] < self.count.len(),
                forall|j: int| 0 <= j < self.list.len() && j != now ==> #[trigger] self.list[j] != index,
                forall|a: int, b: int|
                    0 <= a < b < self.list.len() && a != now && b != now ==> ranks_before(
                        self.count@,
                        #[trigger] self.list[a],
                        #[trigger] self.list[b],
                    ),
                forall|b: int|
                    now < b < self.list.len() ==> ranks_before(self.count@, index, #[trigger] self.list[b]),
                forall|x: usize| self.list@.contains(x) <==> old(self).stays_listed(index, x),
            decreases now + if moving { 1int } else { 0int },
        {
            let cur = self.list[now];
            let prev = self.list[now - 1];
            if self.count[cur] > self.count[prev] || (self.count[cur] == self.count[prev] && cur < prev) {
                let ghost before = self.list@;
                self.list.set(now, prev);
                self.list.set(now - 1, cur);
                proof {
                    assert forall|x: usize| self.list@.contains(x) <==> before.contains(x) by {
                        if before.contains(x) {
                            let k = choose|k: int| 0 <= k < before.len() && before[k] == x;
                            if k == now as int {
                                assert(self.list@[now - 1] == x);
                            } else if k == now - 1 {
                                assert(self.list@[now as int] == x);
                            } else {
                                assert(self.list@[k] == x);
                            }
                        }
                        if self.list@.contains(x) {
                            let k = choose|k: int| 0 <= k < self.list@.len() && self.list@[k] == x;
                            if k == now as int {
                                assert(before[now - 1] == x);
                            } else if k == now - 1 {
                                assert(before[now as int] == x);
                            } else {
                                assert(before[k] == x);
                            }
                        }
                    }
                    if old(self).leads() {
                        assert forall|j: int| 0 <= j < self.list.len() implies self.count@[#[trigger] self.list[j] as int] > 0 by {
                            if j == now as int {
                                assert(self.list[j] == before[now - 1]);
                            } else if j == now - 1 {
                                assert(self.list[j] == before[now as int]);
                            } else {
                                assert(self.list[j] == before[j]);
                            }
                        }
                        assert forall|x: usize|
                            x < self.count.len() && self.count@[x as int] > 0 && !#[trigger] self.list@.contains(x) implies
                            self.list.len() == 6 && forall|j: int| 0 <= j < 5 ==> ranks_before(self.count@, #[trigger] self.list[j], x) by {
                            assert(!before.contains(x));
                            assert forall|j: int| 0 <= j < 5 implies ranks_before(self.count@, #[trigger] self.list[j], x) by {
                                if j == now as int {
                                    assert(self.list[j] == before[now - 1]);
                                    assert(ranks_before(self.count@, before[now - 1], x));
                                } else if j == now - 1 {
                                    assert(self.list[j] == before[now as int]);
                                    if now < 5 {
                                        assert(ranks_before(self.count@, before[now as int], x));
                                    } else {
                                        assert(ranks_before(self.count@, before[4], x));
                                    }
                                } else {
                                    assert(self.list[j] == before[j]);
                                    assert(ranks_before(self.count@, before[j], x));
                                }
                            }
                        }
                    }
                }
                now = now - 1;
            } else {
                moving = false;
            }
        }
        proof {
            assert forall|a: int, b: int| 0 <= a < b < self.list.len() implies ranks_before(
                self.count@,
                #[trigger] self.list[a],
                #[trigger] self.list[b],
            ) by {
                if b == now as int && a < now - 1 {
                    assert(ranks_before(self.count@, self.list[a], self.list[now - 1]));
                }
            }
            if old(self).ranked() {
                assert forall|j: int| 0 <= j < self.list.len() implies #[trigger] self.list[j] < self.count.len()
                    && self.count[self.list[j] as int] > 0 by {
                    if self.list[j] != index {
                        assert(self.list@.contains(self.list[j]));
                        assert(old(self).stays_listed(index, self.list[j]));
                        let k = choose|k: int| 0 <= k < old_list.len() && old_list[k] == self.list[j];
                        assert(old_count[old_list[k] as int] > 0);
                    }
                }
                assert forall|a: int, b: int| 0 <= a < b < self.list.len() implies #[trigger] self.list[a]
                    != #[trigger] self.list[b] by {
                    assert(ranks_before(self.count@, self.list[a], self.list[b]));
                }
            }
        }
    }

    /// The leading words to show, best first: at most five positions of the
    /// leading list, each with its count.
    pub fn top(&self) -> (r: Vec<(usize, i32)>)
        requires
            self.list.len() <= i32::MAX,
            forall|j: int| 0 <= j < self.list.len() && j < 5 ==> #[trigger] self.list[j] < self.count.len(),
        ensures
            r.len() == if self.list.len() < 5 { self.list.len() as int } else { 5 },
            forall|j: int|
                0 <= j < r.len() ==> #[trigger] r[j] == (self.list[j], self.count[self.list[j] as int]),
    {
        let shown = crate::game::min(self.list.len() as i32, 5) as usize;
        let mut r: Vec<(usize, i32)> = Vec::new();
        for i in 0..shown
            invariant
                forall|j: int| 0 <= j < self.list.len() && j < 5 ==> #[trigger] self.list[j] < self.count.len(),
                shown == if self.list.len() < 5 { self.list.len() as int } else { 5 },
                r.len() == i,
                forall|j: int|
                    0 <= j < i ==> #[trigger] r[j] == (self.list[j], self.count[self.list[j] as int]),
        {
            let index = self.list[i];
            r.push((index, self.count[index]));
        }
        r
    }

    /// The position in `words` of the first word whose uppercase is `guess`.
    pub fn get_id(guess: &String, words: &Vec<String>) -> (i: usize)
        requires
            has_match(words.deep_view(), guess@),
        ensures
            is_first_match(words.deep_view(), guess@, i as int),
            i as int == first_match(words.deep_view(), guess@),
    {
        match position_upper(words, guess) {
            Some(i) => i,
            None => 0,
        }
    }
}

/// The position of the first word of `words` whose uppercase is `guess`, if any.
pub fn position_upper(words: &Vec<String>, guess: &String) -> (r: Option<usize>)
    ensures
        r matches Some(i) ==> is_first_match(words.deep_view(), guess@, i as int) && i as int == first_match(
            words.deep_view(),
            guess@,
        ),
        r is None <==> !has_match(words.deep_view(), guess@),
{
    let ghost w = words.deep_view();
    let mut i: usize = 0;
    while i < words.len()
        invariant
            w == words.deep_view(),
            i <= words.len(),
            forall|j: int| 0 <= j < i ==> uppered(#[trigger] w[j]) != guess@,
        decreases words.len() - i,
    {
        if matches_upper(&words[i], guess) {
            proof {
                lemma_first_match_unique(w, guess@, i as int);
                assert(uppered(w[i as int]) == guess@);
            }
            return Some(i);
        }
        i = i + 1;
    }
    None
}

} // verus!
