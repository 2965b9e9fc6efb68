use vstd::prelude::*;
use crate::word::{N_LETTERS, Word};

verus! {

/// Number of guesses a game allows.
pub const MAX_ATTEMPTS: usize = 6;

/// The verdict on one slot of a guess.
#[derive(Copy, Clone, Debug, PartialEq, Eq, Structural)]
pub enum LetterResult {
    /// The guessed letter is the secret's letter at that slot.
    Correct,
    /// The secret holds the guessed letter, at another slot.
    Misplaced,
    /// The secret does not hold the guessed letter.
    NonMember,
}

/// The outcome of one guess.
#[derive(Copy, Clone, Debug, PartialEq)]
pub enum GameResult {
    /// Every slot was correct, at the attempt with this (1-based) number.
    Win(usize),
    /// Not solved yet: the verdict on each slot.
    Miss([LetterResult; N_LETTERS]),
    /// The last allowed attempt missed.
    Loss,
}

/// Why a guess was refused.
#[derive(Copy, Clone, Debug, PartialEq, Eq, Structural)]
pub enum GameError {
    /// The game has already been won or lost.
    AlreadyTerminal,
}

/// The verdict on slot `i` of `guess` against `secret`: a letter present
/// anywhere else in the secret counts as misplaced, without regard to how
/// often it occurs.
pub open spec fn verdict(secret: Seq<char>, guess: Seq<char>, i: int) -> LetterResult {
    if guess[i] == secret[i] {
        LetterResult::Correct
    } else if secret.contains(guess[i]) {
        LetterResult::Misplaced
    } else {
        LetterResult::NonMember
    }
}

/// The verdicts on every slot of `guess` against `secret`.
pub open spec fn feedback(secret: Seq<char>, guess: Seq<char>) -> Seq<LetterResult> {
    Seq::new(N_LETTERS as nat, |i: int| verdict(secret, guess, i))
}

/// Every verdict is `Correct`.
pub open spec fn all_correct(r: Seq<LetterResult>) -> bool {
    forall|i: int| 0 <= i < r.len() ==> r[i] == LetterResult::Correct
}

/// The outcome of a guess whose verdicts are `r`, as the attempt with
/// number `n`.
pub open spec fn outcome(r: Seq<LetterResult>, n: int) -> GameResult {
    if all_correct(r) {
        GameResult::Win(n as usize)
    } else if n == MAX_ATTEMPTS {
        GameResult::Loss
    } else {
        GameResult::Miss(
            [r[0], r[1], r[2], r[3], r[4]],
        )
    }
}

/// Guessing the secret itself marks every slot `Correct`, so the guess is a
/// win at the attempt number it was made with.
pub proof fn lemma_guessing_secret_wins(secret: Word, n: int)
    ensures
        all_correct(feedback(secret@, secret@)),
        outcome(feedback(secret@, secret@), n) == GameResult::Win(n as usize),
{
}

/// A guess that shares no letter with the secret gets `NonMember` at every
/// slot.
pub proof fn lemma_disjoint_guess_all_absent(secret: Word, guess: Word)
    requires
        forall|i: int| 0 <= i < N_LETTERS ==> !secret@.contains(#[trigger] guess@[i]),
    ensures
        feedback(secret@, guess@) == Seq::new(N_LETTERS as nat, |i: int| LetterResult::NonMember),
{
    assert forall|i: int| 0 <= i < N_LETTERS implies guess@[i] != secret@[i] by {
        assert(!secret@.contains(guess@[i]));
    }
    assert(feedback(secret@, guess@) =~= Seq::new(N_LETTERS as nat, |i: int| LetterResult::NonMember));
}

/// A guessed letter that is not the secret's letter at its slot, but occurs
/// elsewhere in the secret, gets `Misplaced` there.
pub proof fn lemma_letter_elsewhere_misplaced(secret: Word, guess: Word, i: int)
    requires
        0 <= i < N_LETTERS,
        guess@[i] != secret@[i],
        secret@.contains(guess@[i]),
    ensures
        feedback(secret@, guess@)[i] == LetterResult::Misplaced,
{
}

/// A game: a secret word, the guesses made so far, and whether it has
/// ended.
#[derive(Copy, Clone, Debug, PartialEq)]
pub struct Game {
    word: Word,
    attempts: usize,
    over: bool,
}

impl Game {
    /// The secret word.
    pub closed spec fn secret(&self) -> Word {
        self.word
    }

    /// How many guesses have been made.
    pub closed spec fn attempts(&self) -> nat {
        self.attempts as nat
    }

    /// The game has been won or lost.
    pub closed spec fn is_over(&self) -> bool {
        self.over
    }

    /// The game's own consistency: until it ends, a guess is left.
    pub closed spec fn wf(&self) -> bool {
        &&& self.attempts <= MAX_ATTEMPTS
        &&& !self.over ==> self.attempts < MAX_ATTEMPTS
    }

    /// A consistent game has made at most `MAX_ATTEMPTS` guesses, and fewer
    /// while it goes on.
    pub proof fn lemma_attempts_bounded(&self)
        requires
            self.wf(),
        ensures
            self.attempts() <= MAX_ATTEMPTS,
            !self.is_over() ==> self.attempts() < MAX_ATTEMPTS,
    {
    }

    /// A fresh game with the given secret.
    pub fn new(word: Word) -> (g: Self)
        ensures
            g.wf(),
            g.secret() == word,
            g.attempts() == 0,
            !g.is_over(),
    {
        Self { word, attempts: 0, over: false }
    }

    /// Number of guesses made so far.
    pub fn attempts_made(&self) -> (n: usize)
        ensures
            n == self.attempts(),
    {
        self.attempts
    }

    /// Whether the game has been won or lost.
    pub fn finished(&self) -> (b: bool)
        ensures
            b == self.is_over(),
    {
        self.over
    }

    /// Scores one guess: each slot is `Correct` where the letters agree,
    /// else `Misplaced` where the secret holds the guessed letter, else
    /// `NonMember`. The guess counts as an attempt; the game ends on a win or
    /// on the last allowed attempt. A game that has ended refuses guesses and
    /// stays as it is.
    pub fn attempt(&mut self, word: Word) -> (r: Result<GameResult, GameError>)
        requires
            old(self).wf(),
        ensures
            final(self).wf(),
            final(self).secret() == old(self).secret(),
            old(self).is_over() ==> r == Err::<GameResult, GameError>(GameError::AlreadyTerminal)
                && *final(self) == *old(self),
            !old(self).is_over() ==> {
                &&& final(self).attempts() == old(self).attempts() + 1
                &&& r == Ok::<GameResult, GameError>(
                    outcome(feedback(old(self).secret()@, word@), final(self).attempts() as int),
                )
                &&& final(self).is_over() == !(r.unwrap() is Miss)
            },
    {
        if self.over {
            return Err(GameError::AlreadyTerminal);
        }
        let mut result = [LetterResult::NonMember; N_LETTERS];
        let mut i: usize = 0;
        while i < N_LETTERS
            invariant
                i <= N_LETTERS,
                forall|j: int| 0 <= j < i ==> result@[j] == verdict(self.word@, word@, j),
            decreases N_LETTERS - i,
        {
            if word[i] == self.word[i] {
                result[i] = LetterResult::Correct;
            } else if contains_letter(&self.word, word[i]) {
                result[i] = LetterResult::Misplaced;
            } else {
                result[i] = LetterResult::NonMember;
            }
            i = i + 1;
        }
        let ghost fb = feedback(self.word@, word@);
        assert(result@ =~= fb);
        self.attempts = self.attempts + 1;
        let mut won = true;
        let mut k: usize = 0;
        while k < N_LETTERS
            invariant
                k <= N_LETTERS,
                result@ == fb,
                won == (forall|j: int| 0 <= j < k ==> result@[j] == LetterResult::Correct),
            decreases N_LETTERS - k,
        {
            if result[k] != LetterResult::Correct {
                won = false;
            }
            k = k + 1;
        }
        if won {
            self.over = true;
            Ok(GameResult::Win(self.attempts))
        } else if self.attempts == MAX_ATTEMPTS {
            self.over = true;
            Ok(GameResult::Loss)
        } else {
            assert(result =~= [fb[0], fb[1], fb[2], fb[3], fb[4]]);
            Ok(GameResult::Miss(result))
        }
    }
}

/// Whether `c` occurs anywhere in `w`.
pub fn contains_letter(w: &Word, c: char) -> (r: bool)
    ensures
        r == w@.contains(c),
{
    let mut i: usize = 0;
    while i < N_LETTERS
        invariant
            i <= N_LETTERS,
            forall|j: int| 0 <= j < i ==> w@[j] != c,
        decreases N_LETTERS - i,
    {
        if w[i] == c {
            return true;
        }
        i = i + 1;
    }
    false
}

} // verus!
