//! Saved games, the daily answer order, and the options of a session.

use vstd::prelude::*;
use rand::SeedableRng;
use rand::seq::SliceRandom;

verus! {

/// One played round: its answer and the guesses that counted.
pub struct Game {
    pub answer: String,
    pub guesses: Vec<String>,
}

/// All rounds played so far.
pub struct State {
    pub total_rounds: usize,
    pub games: Vec<Game>,
}

/// The round was won: its last counted guess is the answer.
pub open spec fn won(game: Game) -> bool {
    game.guesses@.len() > 0 && game.guesses@.last()@ == game.answer@
}

/// Number of won rounds among the first `n` games.
pub open spec fn won_count(games: Seq<Game>, n: int) -> int
    decreases n,
{
    if n <= 0 {
        0
    } else {
        won_count(games, n - 1) + if won(games[n - 1]) { 1int } else { 0int }
    }
}

/// Total number of guesses in the won rounds among the first `n` games.
pub open spec fn won_tries(games: Seq<Game>, n: int) -> int
    decreases n,
{
    if n <= 0 {
        0
    } else {
        won_tries(games, n - 1) + if won(games[n - 1]) { games[n - 1].guesses@.len() as int } else { 0int }
    }
}

proof fn lemma_won_count_bounds(games: Seq<Game>, n: int)
    ensures
        0 <= won_count(games, n) <= if n < 0 { 0 } else { n },
        0 <= won_tries(games, n),
        n >= 1 ==> won_tries(games, n - 1) <= won_tries(games, n),
    decreases n,
{
    if n > 0 {
        lemma_won_count_bounds(games, n - 1);
    }
}

proof fn lemma_won_tries_monotone(games: Seq<Game>, i: int, j: int)
    requires
        i <= j,
    ensures
        won_tries(games, i) <= won_tries(games, j),
    decreases j - i,
{
    if i < j {
        lemma_won_tries_monotone(games, i, j - 1);
        lemma_won_count_bounds(games, j);
    }
}

proof fn lemma_won_count_is_filter(games: Seq<Game>, n: int)
    requires
        0 <= n <= games.len(),
    ensures
        won_count(games, n) == games.take(n).filter(
            |g: Game| g.guesses@.len() > 0 && g.guesses@.last()@ == g.answer@,
        ).len(),
    decreases n,
{
    reveal_with_fuel(Seq::filter, 1);
    if n > 0 {
        lemma_won_count_is_filter(games, n - 1);
        assert(games.take(n).drop_last() =~= games.take(n - 1));
        assert(games.take(n).last() == games[n - 1]);
    } else {
        assert(games.take(0) =~= Seq::<Game>::empty());
    }
}

proof fn lemma_won_prefix(games: Seq<Game>, g: Game, n: int)
    requires
        0 <= n <= games.len(),
    ensures
        won_count(games.push(g), n) == won_count(games, n),
        won_tries(games.push(g), n) == won_tries(games, n),
    decreases n,
{
    if n > 0 {
        lemma_won_prefix(games, g, n - 1);
        assert(games.push(g)[n - 1] == games[n - 1]);
    }
}

/// Adding one more saved game to the record: it adds one win and its number
/// of guesses exactly when its last guess is its answer, and nothing
/// otherwise, however many guesses it took.
pub proof fn lemma_results_add_game(games: Seq<Game>, g: Game)
    requires
        g.guesses@.len() > 0,
    ensures
        won_count(games.push(g), games.len() + 1int) == won_count(games, games.len() as int) + if g.guesses@.last()@
            == g.answer@ {
            1int
        } else {
            0int
        },
        won_tries(games.push(g), games.len() + 1int) == won_tries(games, games.len() as int) + if g.guesses@.last()@
            == g.answer@ {
            g.guesses@.len() as int
        } else {
            0int
        },
{
    lemma_won_prefix(games, g, games.len() as int);
    assert(games.push(g)[games.len() as int] == g);
}

impl State {
    /// The number of won rounds and the total number of guesses they took.
    pub fn results(&self) -> (r: (usize, usize))
        requires
            forall|i: int| 0 <= i < self.games@.len() ==> #[trigger] self.games@[i].guesses@.len() >= 1,
            won_tries(self.games@, self.games@.len() as int) <= usize::MAX,
        ensures
            r.0 == won_count(self.games@, self.games@.len() as int),
            r.1 == won_tries(self.games@, self.games@.len() as int),
            r.0 == self.games@.filter(|g: Game| g.guesses@.len() > 0 && g.guesses@.last()@ == g.answer@).len(),
            r.0 <= self.games@.len(),
    {
        proof {
            lemma_won_count_is_filter(self.games@, self.games@.len() as int);
            assert(self.games@.take(self.games@.len() as int) =~= self.games@);
            lemma_won_count_bounds(self.games@, self.games@.len() as int);
        }
        let mut success_cnt: usize = 0;
        let mut success_try_cnt: usize = 0;
        let n = self.games.len();
        for i in 0..n
            invariant
                n == self.games@.len(),
                forall|i: int| 0 <= i < self.games@.len() ==> #[trigger] self.games@[i].guesses@.len() >= 1,
                won_tries(self.games@, n as int) <= usize::MAX,
                success_cnt == won_count(self.games@, i as int),
                success_try_cnt == won_tries(self.games@, i as int),
        {
            let game = &self.games[i];
            proof {
                lemma_won_count_bounds(self.games@, i + 1);
                lemma_won_tries_monotone(self.games@, i + 1, n as int);
            }
            let len = game.guesses.len();
            if game.guesses[len - 1] == game.answer {
                success_cnt += 1;
                success_try_cnt += len;
            }
        }
        (success_cnt, success_try_cnt)
    }
}

/// The order in which `StdRng::seed_from_u64(seed)` makes `slice::shuffle`
/// arrange `items` (rand 0.8): a fixed function of the items and the seed.
pub uninterp spec fn seeded_shuffle(items: Seq<usize>, seed: u64) -> Seq<usize>;

/// Shuffles `v` with the standard generator seeded by `seed`
/// (`StdRng::seed_from_u64`, then `SliceRandom::shuffle`). Claimed: the
/// result is `seeded_shuffle` of the input and the seed, and a rearrangement
/// of the input (the shuffle only swaps elements). Which rearrangement is not stated.
#[verifier::external_body]
fn shuffle_with_seed(v: &mut Vec<usize>, seed: u64)
    ensures
        final(v)@ == seeded_shuffle(old(v)@, seed),
        final(v)@.to_multiset() == old(v)@.to_multiset(),
{
    let mut rng = rand::rngs::StdRng::seed_from_u64(seed);
    v.shuffle(&mut rng);
}

/// The positions `0..n`.
pub open spec fn positions(n: nat) -> Seq<usize> {
    Seq::new(n, |i: int| i as usize)
}

/// The order in which the answers `0..n` come up day after day for `seed`.
pub fn day_order(n: usize, seed: u64) -> (order: Vec<usize>)
    ensures
        order@ == seeded_shuffle(positions(n as nat), seed),
        order@.to_multiset() == positions(n as nat).to_multiset(),
{
    let mut order: Vec<usize> = Vec::new();
    for i in 0..n
        invariant
            order@ == positions(i as nat),
    {
        order.push(i);
        assert(order@ =~= positions((i + 1) as nat));
    }
    shuffle_with_seed(&mut order, seed);
    order
}

/// The answer of day `day` (counted from 1): the word at the position that
/// `order` gives for that day; `None` when there is no such day or word.
pub fn answer_of_day(order: &Vec<usize>, final_words: &[String], day: usize) -> (word: Option<String>)
    ensures
        (1 <= day <= order@.len() && order@[day - 1] < final_words@.len()) ==> (word matches Some(w)
            && w@ == final_words@[order@[day - 1] as int]@),
        !(1 <= day <= order@.len() && order@[day - 1] < final_words@.len()) ==> word is None,
{
    if day == 0 || day > order.len() {
        return None;
    }
    let index = order[day - 1];
    if index >= final_words.len() {
        return None;
    }
    Some(final_words[index].clone())
}

/// A fixed answer cannot be combined with random answers, a seed or a day.
pub fn parameters_conflict(is_word: bool, is_random: bool, is_seed: bool, is_day: bool) -> (r: bool)
    ensures
        r == (is_word && (is_random || is_seed || is_day)),
{
    is_word && (is_random || is_seed || is_day)
}

} // verus!
