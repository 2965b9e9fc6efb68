use vstd::prelude::*;
use crate::game::{Game, GameResult, MAX_ATTEMPTS, feedback, outcome};
use crate::histogram::{all_words, counts_of, table};
use crate::solver::{Knowledge, Solver, admits, informed, lemma_oracle_round_keeps_secret, no_knowledge, top_candidate};
use crate::word::{Word, is_word};

verus! {

/// How a game of the solver against itself goes on from knowledge `k` after
/// `n` guesses: it guesses its top candidate, ends on a win or a loss, and
/// otherwise takes in the feedback and goes on; `None` when no candidate is
/// left.
pub open spec fn play_from(dict: Seq<Word>, secret: Word, k: Knowledge, n: nat) -> Option<GameResult>
    decreases MAX_ATTEMPTS - n,
{
    if n >= MAX_ATTEMPTS {
        None
    } else {
        match top_candidate(dict, counts_of(dict), k) {
            None => None,
            Some(i) => {
                let g = dict[i];
                let fb = feedback(secret@, g@);
                match outcome(fb, n + 1 as int) {
                    GameResult::Miss(_) => play_from(dict, secret, informed(k, fb, g@), n + 1),
                    other => Some(other),
                }
            },
        }
    }
}

/// Plays a game against `word` with a solver over `dictionary`, always
/// guessing the top suggestion. Returns the final `Win` or `Loss`, or
/// `None` when the solver runs out of candidates first. When `word` is in
/// the dictionary the solver never runs out, and the game ends within
/// `MAX_ATTEMPTS` guesses.
pub fn play_against_self(dictionary: &[Word], word: Word) -> (r: Option<GameResult>)
    requires
        all_words(dictionary@),
        dictionary@.len() <= u64::MAX / 5,
    ensures
        r == play_from(dictionary@, word, no_knowledge(), 0),
        match r {
            Some(GameResult::Win(n)) => 1 <= n <= MAX_ATTEMPTS,
            Some(GameResult::Miss(_)) => false,
            _ => true,
        },
        dictionary@.contains(word) ==> r is Some,
{
    let ghost d = dictionary@;
    let mut game = Game::new(word);
    let mut solver = Solver::new(dictionary);
    loop
        invariant
            d == dictionary@,
            all_words(d),
            game.wf(),
            solver.wf(),
            !game.is_over(),
            game.secret() == word,
            table(solver.hists()) == counts_of(d),
            play_from(d, word, solver@, game.attempts()) == play_from(d, word, no_knowledge(), 0),
            d.contains(word) ==> admits(solver@, word@),
        decreases MAX_ATTEMPTS - game.attempts(),
    {
        proof {
            game.lemma_attempts_bounded();
        }
        let suggestions = solver.suggest(dictionary);
        if suggestions.len() == 0 {
            proof {
                if d.contains(word) {
                    let i = choose|i: int| 0 <= i < d.len() && d[i] == word;
                    assert(admits(solver@, d[i]@));
                }
            }
            return None;
        }
        let play = dictionary[suggestions[suggestions.len() - 1]];
        assert(is_word(play));
        let ghost n = game.attempts();
        let ghost k = solver@;
        let result = game.attempt(play);
        proof {
            game.lemma_attempts_bounded();
        }
        match result {
            Ok(GameResult::Miss(verdicts)) => {
                assert(verdicts@ =~= feedback(word@, play@));
                proof {
                    if d.contains(word) {
                        lemma_oracle_round_keeps_secret(k, word, play);
                    }
                }
                solver.inform(verdicts, play);
            },
            Ok(other) => {
                return Some(other);
            },
            Err(_) => {
                return None;
            },
        }
    }
}

/// Tallies of many self-played games.
#[derive(Copy, Clone, Debug, PartialEq, Eq)]
pub struct PlayStats {
    /// Games won.
    pub wins: u64,
    /// Games lost on the last allowed attempt.
    pub losses: u64,
    /// Games where the solver ran out of candidates.
    pub exhausts: u64,
    /// `attempt_hist[n - 1]` counts the games won at attempt `n`.
    pub attempt_hist: [u64; MAX_ATTEMPTS],
}

impl PlayStats {
    /// No games yet.
    pub fn new() -> (s: Self)
        ensures
            s.wins == 0 && s.losses == 0 && s.exhausts == 0,
            forall|n: int| 0 <= n < MAX_ATTEMPTS ==> s.attempt_hist[n] == 0,
    {
        PlayStats { wins: 0, losses: 0, exhausts: 0, attempt_hist: [0u64; MAX_ATTEMPTS] }
    }

    /// Counts one game's result: a win also counts in the histogram at its
    /// attempt number; `None` counts as running out of candidates; a `Miss`
    /// is no final result and counts nowhere.
    pub fn record(&mut self, result: Option<GameResult>)
        requires
            old(self).wins < u64::MAX,
            old(self).losses < u64::MAX,
            old(self).exhausts < u64::MAX,
            forall|n: int| 0 <= n < MAX_ATTEMPTS ==> #[trigger] old(self).attempt_hist[n] < u64::MAX,
            match result {
                Some(GameResult::Win(n)) => 1 <= n <= MAX_ATTEMPTS,
                _ => true,
            },
        ensures
            match result {
                Some(GameResult::Win(n)) => {
                    &&& final(self).wins == old(self).wins + 1
                    &&& final(self).losses == old(self).losses
                    &&& final(self).exhausts == old(self).exhausts
                    &&& final(self).attempt_hist@ == old(self).attempt_hist@.update(
                        n - 1,
                        (old(self).attempt_hist[n - 1] + 1) as u64,
                    )
                },
                Some(GameResult::Loss) => {
                    &&& final(self).wins == old(self).wins
                    &&& final(self).losses == old(self).losses + 1
                    &&& final(self).exhausts == old(self).exhausts
                    &&& final(self).attempt_hist == old(self).attempt_hist
                },
                None => {
                    &&& final(self).wins == old(self).wins
                    &&& final(self).losses == old(self).losses
                    &&& final(self).exhausts == old(self).exhausts + 1
                    &&& final(self).attempt_hist == old(self).attempt_hist
                },
                Some(GameResult::Miss(_)) => *final(self) == *old(self),
            },
    {
        match result {
            Some(GameResult::Win(n)) => {
                self.wins = self.wins + 1;
                self.attempt_hist[n - 1] = self.attempt_hist[n - 1] + 1;
            },
            Some(GameResult::Loss) => {
                self.losses = self.losses + 1;
            },
            None => {
                self.exhausts = self.exhausts + 1;
            },
            Some(GameResult::Miss(_)) => {},
        }
    }
}

} // verus!
