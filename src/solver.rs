use vstd::prelude::*;
use crate::game::{LetterResult, feedback};
use crate::histogram::{
    LetterHists,
    N_ALPHABET,
    all_words,
    calc_letter_hist,
    counts_of,
    hist_bounded,
    lemma_bounded_total_fits,
    score,
    score_word,
    table,
};
use crate::word::{N_LETTERS, Word, is_letter, is_word, letter_at, letter_idx, letter_index};

verus! {

/// What the feedback gathered so far says of the secret.
pub struct Knowledge {
    /// Letters the secret holds somewhere.
    pub must_have: Set<char>,
    /// For each slot, letters known not to stand there.
    pub excluded: Seq<Set<char>>,
    /// For each slot, the letter known to stand there, if any.
    pub confirmed: Seq<Option<char>>,
}

/// Knowledge before any feedback.
pub open spec fn no_knowledge() -> Knowledge {
    Knowledge {
        must_have: Set::empty(),
        excluded: Seq::new(N_LETTERS as nat, |s: int| Set::empty()),
        confirmed: Seq::new(N_LETTERS as nat, |s: int| None),
    }
}

/// Slot `s` of `w` agrees with `k`: the confirmed letter where there is one,
/// else a letter that is not excluded there.
pub open spec fn slot_allows(k: Knowledge, w: Seq<char>, s: int) -> bool {
    match k.confirmed[s] {
        Some(c) => w[s] == c,
        None => !k.excluded[s].contains(w[s]),
    }
}

/// `w` is consistent with everything `k` holds.
pub open spec fn admits(k: Knowledge, w: Seq<char>) -> bool {
    &&& forall|s: int| 0 <= s < N_LETTERS ==> #[trigger] slot_allows(k, w, s)
    &&& forall|c: char| #[trigger] k.must_have.contains(c) ==> w.contains(c)
}

/// Some slot of the guess `w` holds `c` with a verdict other than
/// `NonMember`.
pub open spec fn present_in(r: Seq<LetterResult>, w: Seq<char>, c: char) -> bool {
    exists|i: int| 0 <= i < N_LETTERS && r[i] != LetterResult::NonMember && #[trigger] w[i] == c
}

/// Some slot of the guess `w` holds `c` with the verdict `NonMember`.
pub open spec fn absent_in(r: Seq<LetterResult>, w: Seq<char>, c: char) -> bool {
    exists|i: int| 0 <= i < N_LETTERS && r[i] == LetterResult::NonMember && #[trigger] w[i] == c
}

/// What `k` becomes after the verdicts `r` on the guess `w`: a `Correct`
/// or `Misplaced` letter must be present; a `Correct` letter is confirmed at
/// its slot; a `Misplaced` letter is excluded from its slot; a `NonMember`
/// letter is excluded from every slot that had no confirmed letter before.
pub open spec fn informed(k: Knowledge, r: Seq<LetterResult>, w: Seq<char>) -> Knowledge {
    Knowledge {
        must_have: k.must_have.union(Set::new(|c: char| present_in(r, w, c))),
        excluded: Seq::new(
            N_LETTERS as nat,
            |s: int|
                k.excluded[s].union(
                    Set::new(
                        |c: char|
                            (r[s] == LetterResult::Misplaced && w[s] == c) || (k.confirmed[s] is None
                                && absent_in(r, w, c)),
                    ),
                ),
        ),
        confirmed: Seq::new(
            N_LETTERS as nat,
            |s: int|
                if r[s] == LetterResult::Correct {
                    Some(w[s])
                } else {
                    k.confirmed[s]
                },
        ),
    }
}

/// `b` holds everything `a` holds: no required letter, exclusion or
/// confirmed slot has been dropped.
pub open spec fn grows(a: Knowledge, b: Knowledge) -> bool {
    &&& a.must_have.subset_of(b.must_have)
    &&& forall|s: int| 0 <= s < N_LETTERS ==> #[trigger] a.excluded[s].subset_of(b.excluded[s])
    &&& forall|s: int| 0 <= s < N_LETTERS ==> #[trigger] a.confirmed[s] is Some ==> b.confirmed[s] is Some
}

/// `i` comes before `j` in a ranking by `(score, index)`.
pub open spec fn ranked_before(dict: Seq<Word>, t: Seq<Seq<int>>, i: int, j: int) -> bool {
    let a = score(dict[i]@, t);
    let b = score(dict[j]@, t);
    a < b || (a == b && i < j)
}

/// The knowledge after feeding `k` one round per element of `rounds`, each
/// a pair of verdicts and guessed word, in order.
pub open spec fn replay(k: Knowledge, rounds: Seq<(Seq<LetterResult>, Seq<char>)>) -> Knowledge
    decreases rounds.len(),
{
    if rounds.len() == 0 {
        k
    } else {
        informed(replay(k, rounds.drop_last()), rounds.last().0, rounds.last().1)
    }
}

/// The rounds that guessing each word of `guesses` in turn produces against
/// `secret`.
pub open spec fn oracle_rounds(secret: Word, guesses: Seq<Word>) -> Seq<(Seq<LetterResult>, Seq<char>)> {
    guesses.map_values(|g: Word| (feedback(secret@, g@), g@))
}

/// `grows` is transitive.
pub proof fn lemma_grows_transitive(a: Knowledge, b: Knowledge, c: Knowledge)
    requires
        grows(a, b),
        grows(b, c),
    ensures
        grows(a, c),
{
    assert forall|s: int| 0 <= s < N_LETTERS implies #[trigger] a.excluded[s].subset_of(c.excluded[s]) by {
        assert(a.excluded[s].subset_of(b.excluded[s]));
        assert(b.excluded[s].subset_of(c.excluded[s]));
    }
    assert forall|s: int| 0 <= s < N_LETTERS && #[trigger] a.confirmed[s] is Some implies c.confirmed[s] is Some by {
        assert(a.confirmed[s] is Some ==> b.confirmed[s] is Some);
        assert(b.confirmed[s] is Some ==> c.confirmed[s] is Some);
    }
}

/// One round of feedback only adds to what is known.
pub proof fn lemma_informed_grows(k: Knowledge, r: Seq<LetterResult>, w: Seq<char>)
    ensures
        grows(k, informed(k, r, w)),
{
}

/// Whatever rounds of feedback come in, knowledge never shrinks: required
/// letters stay required, exclusions stay, and a confirmed slot stays
/// confirmed, holding either its earlier letter or the letter of a later
/// round whose verdict at that slot was `Correct`.
pub proof fn lemma_knowledge_only_grows(k: Knowledge, rounds: Seq<(Seq<LetterResult>, Seq<char>)>)
    ensures
        grows(k, replay(k, rounds)),
        forall|s: int|
            0 <= s < N_LETTERS ==> #[trigger] replay(k, rounds).confirmed[s] == k.confirmed[s] || exists|j: int|
                0 <= j < rounds.len() && rounds[j].0[s] == LetterResult::Correct
                    && replay(k, rounds).confirmed[s] == Some(#[trigger] rounds[j].1[s]),
    decreases rounds.len(),
{
    if rounds.len() > 0 {
        let prev = rounds.drop_last();
        lemma_knowledge_only_grows(k, prev);
        lemma_informed_grows(replay(k, prev), rounds.last().0, rounds.last().1);
        lemma_grows_transitive(k, replay(k, prev), replay(k, rounds));
        assert forall|s: int| 0 <= s < N_LETTERS implies #[trigger] replay(k, rounds).confirmed[s] == k.confirmed[s] || exists|j: int|
                0 <= j < rounds.len() && rounds[j].0[s] == LetterResult::Correct
                    && replay(k, rounds).confirmed[s] == Some(#[trigger] rounds[j].1[s]) by {
            let n = rounds.len() - 1;
            if rounds[n].0[s] == LetterResult::Correct {
                assert(replay(k, rounds).confirmed[s] == Some(rounds[n].1[s]));
            } else if replay(k, prev).confirmed[s] != k.confirmed[s] {
                let j = choose|j: int|
                    0 <= j < prev.len() && prev[j].0[s] == LetterResult::Correct
                        && replay(k, prev).confirmed[s] == Some(#[trigger] prev[j].1[s]);
                assert(rounds[j] == prev[j]);
            }
        }
    }
}

/// A round of the oracle's own feedback against `secret` keeps `secret`
/// admitted.
pub proof fn lemma_oracle_round_keeps_secret(k: Knowledge, secret: Word, guess: Word)
    requires
        admits(k, secret@),
    ensures
        admits(informed(k, feedback(secret@, guess@), guess@), secret@),
{
    let r = feedback(secret@, guess@);
    let g = guess@;
    let sw = secret@;
    let k1 = informed(k, r, g);
    assert forall|s: int| 0 <= s < N_LETTERS implies #[trigger] slot_allows(k1, sw, s) by {
        assert(slot_allows(k, sw, s));
        if r[s] != LetterResult::Correct && k.confirmed[s] is None {
            if absent_in(r, g, sw[s]) {
                let i = choose|i: int| 0 <= i < N_LETTERS && r[i] == LetterResult::NonMember && #[trigger] g[i] == sw[s];
                assert(sw.contains(g[i]));
            }
        }
    }
    assert forall|c: char| #[trigger] k1.must_have.contains(c) implies sw.contains(c) by {
        if !k.must_have.contains(c) {
            let i = choose|i: int| 0 <= i < N_LETTERS && r[i] != LetterResult::NonMember && #[trigger] g[i] == c;
            if r[i] == LetterResult::Correct {
                assert(sw[i] == c);
            }
        }
    }
}

/// No false negatives: as long as every round of feedback was produced by
/// the oracle against `secret`, the solver still admits `secret`, so
/// `suggest` keeps it among its candidates.
pub proof fn lemma_secret_never_excluded(secret: Word, guesses: Seq<Word>)
    ensures
        admits(replay(no_knowledge(), oracle_rounds(secret, guesses)), secret@),
    decreases guesses.len(),
{
    let rounds = oracle_rounds(secret, guesses);
    if guesses.len() == 0 {
        assert(admits(no_knowledge(), secret@));
    } else {
        let prev = guesses.drop_last();
        lemma_secret_never_excluded(secret, prev);
        assert(rounds.drop_last() =~= oracle_rounds(secret, prev));
        lemma_oracle_round_keeps_secret(
            replay(no_knowledge(), oracle_rounds(secret, prev)),
            secret,
            guesses.last(),
        );
    }
}

/// Index `i` of `dict` is admitted by `k` and ranks above every other
/// admitted index.
pub open spec fn is_top(dict: Seq<Word>, t: Seq<Seq<int>>, k: Knowledge, i: int) -> bool {
    &&& 0 <= i < dict.len()
    &&& admits(k, dict[i]@)
    &&& forall|j: int|
        0 <= j < dict.len() && j != i && admits(k, #[trigger] dict[j]@) ==> ranked_before(dict, t, j, i)
}

/// The best-ranked index of `dict` that `k` admits, if any.
pub open spec fn top_candidate(dict: Seq<Word>, t: Seq<Seq<int>>, k: Knowledge) -> Option<int> {
    if exists|i: int| is_top(dict, t, k, i) {
        Some(choose|i: int| is_top(dict, t, k, i))
    } else {
        None
    }
}

/// Accumulates feedback over the rounds of one game and proposes the words
/// of a dictionary that are still possible.
pub struct Solver {
    must_have: [bool; N_ALPHABET],
    excluded: [[bool; N_ALPHABET]; N_LETTERS],
    confirmed: [Option<char>; N_LETTERS],
    letter_hists: LetterHists,
}

impl View for Solver {
    type V = Knowledge;

    closed spec fn view(&self) -> Knowledge {
        Knowledge {
            must_have: Set::new(|c: char| is_letter(c) && self.must_have[letter_index(c)]),
            excluded: Seq::new(
                N_LETTERS as nat,
                |s: int| Set::new(|c: char| is_letter(c) && self.excluded[s][letter_index(c)]),
            ),
            confirmed: self.confirmed@,
        }
    }
}

impl Solver {
    /// The histogram that candidates are ranked by.
    pub closed spec fn hists(&self) -> LetterHists {
        self.letter_hists
    }

    /// The solver's own consistency: its histogram's counts are small enough
    /// to be summed.
    pub closed spec fn wf(&self) -> bool {
        hist_bounded(self.letter_hists)
    }

    /// A solver that knows nothing yet, ranking by the histogram of
    /// `dictionary`.
    pub fn new(dictionary: &[Word]) -> (s: Self)
        requires
            all_words(dictionary@),
            dictionary@.len() <= u64::MAX / 5,
        ensures
            s.wf(),
            s@ == no_knowledge(),
            table(s.hists()) == counts_of(dictionary@),
    {
        let letter_hists = calc_letter_hist(dictionary);
        let s = Self {
            must_have: [false; N_ALPHABET],
            excluded: [[false; N_ALPHABET]; N_LETTERS],
            confirmed: [None; N_LETTERS],
            letter_hists,
        };
        assert(s@.must_have =~= Set::empty());
        assert forall|k: int| 0 <= k < N_LETTERS implies s@.excluded[k] =~= Set::<char>::empty() by {
        }
        assert(s@.excluded =~= no_knowledge().excluded);
        assert(s@.confirmed =~= no_knowledge().confirmed);
        s
    }

    /// The histogram that candidates are ranked by.
    pub fn letter_hists(&self) -> (h: LetterHists)
        ensures
            h == self.hists(),
    {
        self.letter_hists
    }

    /// Whether `word` is consistent with all feedback so far.
    pub fn allows(&self, word: &Word) -> (r: bool)
        requires
            is_word(*word),
        ensures
            r == admits(self@, word@),
    {
        let ghost k = self@;
        let mut s: usize = 0;
        while s < N_LETTERS
            invariant
                s <= N_LETTERS,
                k == self@,
                is_word(*word),
                forall|j: int| 0 <= j < s ==> #[trigger] slot_allows(k, word@, j),
            decreases N_LETTERS - s,
        {
            assert(is_letter(word@[s as int]));
            let ok = match self.confirmed[s] {
                Some(c) => word[s] == c,
                None => !self.excluded[s][letter_idx(word[s])],
            };
            if !ok {
                assert(!slot_allows(k, word@, s as int));
                return false;
            }
            s = s + 1;
        }
        let mut l: usize = 0;
        while l < N_ALPHABET
            invariant
                l <= N_ALPHABET,
                k == self@,
                is_word(*word),
                forall|j: int| 0 <= j < N_LETTERS ==> #[trigger] slot_allows(k, word@, j),
                forall|c: char|
                    #[trigger] k.must_have.contains(c) && letter_index(c) < l ==> word@.contains(c),
            decreases N_ALPHABET - l,
        {
            let c = letter_at(l);
            if self.must_have[l] && !crate::game::contains_letter(word, c) {
                assert(k.must_have.contains(c));
                return false;
            }
            assert forall|d: char| #[trigger]
                k.must_have.contains(d) && letter_index(d) < l + 1 implies word@.contains(d) by {
                if letter_index(d) == l {
                    assert(d == c);
                }
            }
            l = l + 1;
        }
        true
    }

    /// Takes in one round's verdicts `result` on the guess `word`: a
    /// `Correct` letter becomes required and confirmed at its slot; a
    /// `Misplaced` letter becomes required and excluded from its slot; a
    /// `NonMember` letter is excluded from every slot that had no confirmed
    /// letter before this round.
    pub fn inform(&mut self, result: [LetterResult; N_LETTERS], word: Word)
        requires
            old(self).wf(),
            is_word(word),
        ensures
            final(self).wf(),
            final(self).hists() == old(self).hists(),
            final(self)@ == informed(old(self)@, result@, word@),
            grows(old(self)@, final(self)@),
    {
        let ghost k0 = self@;
        let ghost must0 = self.must_have;
        let ghost ex0 = self.excluded;
        let prior = self.confirmed;
        let ghost r = result@;
        let ghost w = word@;
        let mut i: usize = 0;
        while i < N_LETTERS
            invariant
                i <= N_LETTERS,
                is_word(word),
                r == result@,
                w == word@,
                self.letter_hists == old(self).letter_hists,
                forall|l: int|
                    0 <= l < N_ALPHABET ==> #[trigger] self.must_have[l] == (must0[l] || exists|j: int|
                        0 <= j < i && r[j] != LetterResult::NonMember && letter_index(w[j]) == l),
                forall|s: int, l: int|
                    0 <= s < N_LETTERS && 0 <= l < N_ALPHABET ==> #[trigger] self.excluded[s][l] == (
                    ex0[s][l] || (s < i && r[s] == LetterResult::Misplaced && letter_index(w[s]) == l)
                        || (prior@[s] is None && exists|j: int|
                        0 <= j < i && r[j] == LetterResult::NonMember && letter_index(w[j]) == l)),
                forall|s: int|
                    0 <= s < N_LETTERS ==> #[trigger] self.confirmed@[s] == if s < i && r[s]
                        == LetterResult::Correct {
                        Some(w[s])
                    } else {
                        prior@[s]
                    },
            decreases N_LETTERS - i,
        {
            let c = word[i];
            assert(is_letter(w[i as int]));
            let idx = letter_idx(c);
            match result[i] {
                LetterResult::Correct => {
                    self.must_have[idx] = true;
                    self.confirmed[i] = Some(c);
                },
                LetterResult::Misplaced => {
                    self.must_have[idx] = true;
                    let mut row = self.excluded[i];
                    row[idx] = true;
                    self.excluded[i] = row;
                },
                LetterResult::NonMember => {
                    let ghost m = self.must_have;
                    let ghost cf = self.confirmed;
                    let mut s: usize = 0;
                    while s < N_LETTERS
                        invariant
                            s <= N_LETTERS,
                            i < N_LETTERS,
                            self.must_have == m,
                            self.confirmed == cf,
                            self.letter_hists == old(self).letter_hists,
                            r == result@,
                            w == word@,
                            idx < N_ALPHABET,
                            idx == letter_index(w[i as int]),
                            r[i as int] == LetterResult::NonMember,
                            forall|t: int, l: int|
                                0 <= t < N_LETTERS && 0 <= l < N_ALPHABET ==> #[trigger] self.excluded[t][l] == (
                                ex0[t][l] || (t < i && r[t] == LetterResult::Misplaced && letter_index(w[t]) == l)
                                    || (prior@[t] is None && exists|j: int|
                                    0 <= j < i && r[j] == LetterResult::NonMember && letter_index(w[j]) == l)
                                    || (t < s && prior@[t] is None && l == idx)),
                        decreases N_LETTERS - s,
                    {
                        if prior[s].is_none() {
                            let mut row = self.excluded[s];
                            row[idx] = true;
                            self.excluded[s] = row;
                        }
                        s = s + 1;
                    }
                },
            }
            i = i + 1;
        }
        let ghost k1 = informed(k0, r, w);
        assert(self@.must_have =~= k1.must_have) by {
            assert forall|c: char| #[trigger] self@.must_have.contains(c) implies k1.must_have.contains(c) by {
                if !must0[letter_index(c)] {
                    let j = choose|j: int|
                        0 <= j < N_LETTERS && r[j] != LetterResult::NonMember && letter_index(w[j]) == letter_index(c);
                    assert(w[j] == c);
                    assert(present_in(r, w, c));
                }
            }
            assert forall|c: char| #[trigger] k1.must_have.contains(c) implies self@.must_have.contains(c) by {
                if !k0.must_have.contains(c) {
                    let j = choose|j: int|
                        0 <= j < N_LETTERS && r[j] != LetterResult::NonMember && #[trigger] w[j] == c;
                    assert(is_letter(w[j]));
                }
            }
        }
        assert forall|t: int| 0 <= t < N_LETTERS implies #[trigger] self@.excluded[t] =~= k1.excluded[t] by {
            assert forall|c: char| #[trigger] self@.excluded[t].contains(c) implies k1.excluded[t].contains(c) by {
                let l = letter_index(c);
                if !ex0[t][l] && !(r[t] == LetterResult::Misplaced && letter_index(w[t]) == l) {
                    let j = choose|j: int|
                        0 <= j < N_LETTERS && r[j] == LetterResult::NonMember && letter_index(w[j]) == l;
                    assert(w[j] == c);
                    assert(absent_in(r, w, c));
                }
            }
            assert forall|c: char| #[trigger] k1.excluded[t].contains(c) implies self@.excluded[t].contains(c) by {
                if !k0.excluded[t].contains(c) {
                    if r[t] == LetterResult::Misplaced && w[t] == c {
                        assert(is_letter(w[t]));
                    } else {
                        let j = choose|j: int|
                            0 <= j < N_LETTERS && r[j] == LetterResult::NonMember && #[trigger] w[j] == c;
                        assert(is_letter(w[j]));
                    }
                }
            }
        }
        assert(self@.excluded =~= k1.excluded);
        assert(self@.confirmed =~= k1.confirmed);
    }

    /// The indices of the words of `dictionary` that are consistent with all
    /// feedback so far, ordered by ascending score and, among equal scores,
    /// by ascending index: the last one is the best guess. Empty when no
    /// word is left.
    pub fn suggest(&self, dictionary: &[Word]) -> (r: Vec<usize>)
        requires
            self.wf(),
            all_words(dictionary@),
        ensures
            forall|k: int|
                0 <= k < r@.len() ==> #[trigger] r@[k] < dictionary@.len() && admits(
                    self@,
                    dictionary@[r@[k] as int]@,
                ),
            forall|i: int|
                0 <= i < dictionary@.len() && admits(self@, #[trigger] dictionary@[i]@) ==> r@.contains(
                    i as usize,
                ),
            forall|a: int, b: int|
                0 <= a < b < r@.len() ==> ranked_before(
                    dictionary@,
                    table(self.hists()),
                    #[trigger] r@[a] as int,
                    #[trigger] r@[b] as int,
                ),
            r@.len() == 0 <==> top_candidate(dictionary@, table(self.hists()), self@) is None,
            r@.len() > 0 ==> top_candidate(dictionary@, table(self.hists()), self@) == Some(
                r@.last() as int,
            ),
    {
        let ghost d = dictionary@;
        let ghost t = table(self.letter_hists);
        let mut out: Vec<usize> = Vec::new();
        let mut scores: Vec<u64> = Vec::new();
        let mut i: usize = 0;
        while i < dictionary.len()
            invariant
                i <= d.len(),
                d == dictionary@,
                t == table(self.letter_hists),
                hist_bounded(self.letter_hists),
                all_words(d),
                scores@.len() == out@.len(),
                forall|k: int|
                    0 <= k < out@.len() ==> #[trigger] out@[k] < i && admits(self@, d[out@[k] as int]@)
                        && scores@[k] == score(d[out@[k] as int]@, t),
                forall|j: int| 0 <= j < i && admits(self@, #[trigger] d[j]@) ==> out@.contains(j as usize),
                forall|a: int, b: int|
                    0 <= a < b < out@.len() ==> ranked_before(d, t, #[trigger] out@[a] as int, #[trigger] out@[b] as int),
            decreases d.len() - i,
        {
            let word = dictionary[i];
            assert(is_word(d[i as int]));
            if self.allows(&word) {
                proof {
                    lemma_bounded_total_fits(word, self.letter_hists, N_LETTERS as int);
                }
                let sc = score_word(word, &self.letter_hists);
                let mut p: usize = out.len();
                while p > 0 && scores[p - 1] > sc
                    invariant
                        p <= out@.len(),
                        scores@.len() == out@.len(),
                        forall|k: int| p <= k < out@.len() ==> #[trigger] scores@[k] > sc,
                    decreases p,
                {
                    p = p - 1;
                }
                proof {
                    out@.insert_ensures(p as int, i);
                    scores@.insert_ensures(p as int, sc);
                    assert forall|k: int| 0 <= k < p implies #[trigger] scores@[k] <= sc by {
                        if k < p - 1 {
                            assert(ranked_before(d, t, out@[k] as int, out@[p - 1] as int));
                        }
                    }
                }
                let ghost old_out = out@;
                let ghost old_scores = scores@;
                out.insert(p, i);
                scores.insert(p, sc);
                proof {
                    assert forall|k: int| 0 <= k < out@.len() implies #[trigger] out@[k] < i + 1 && admits(self@, d[out@[k] as int]@)
                        && scores@[k] == score(d[out@[k] as int]@, t) by {
                        if k > p {
                            assert(out@[k] == old_out[k - 1]);
                        }
                    }
                    assert forall|j: int| 0 <= j < i + 1 && admits(self@, #[trigger] d[j]@) implies out@.contains(j as usize) by {
                        if j < i {
                            let k = choose|k: int| 0 <= k < old_out.len() && old_out[k] == j as usize;
                            if k < p {
                                assert(out@[k] == j as usize);
                            } else {
                                assert(out@[k + 1] == j as usize);
                            }
                        } else {
                            assert(out@[p as int] == j as usize);
                        }
                    }
                    assert forall|a: int, b: int| 0 <= a < b < out@.len() implies ranked_before(d, t, #[trigger] out@[a] as int, #[trigger] out@[b] as int) by {
                        let oa = if a < p { a } else { a - 1 };
                        let ob = if b <= p { b } else { b - 1 };
                        if a == p {
                            assert(scores@[b] == old_scores[ob]);
                        } else if b == p {
                            assert(scores@[a] == old_scores[oa]);
                        } else {
                            assert(out@[a] == old_out[oa]);
                            assert(out@[b] == old_out[ob]);
                        }
                    }
                }
            }
            i = i + 1;
        }
        proof {
            let k = self@;
            if out@.len() > 0 {
                let top = out@.last() as int;
                assert forall|j: int|
                    0 <= j < d.len() && j != top && admits(k, #[trigger] d[j]@) implies ranked_before(d, t, j, top) by {
                    let a = choose|a: int| 0 <= a < out@.len() && out@[a] == j as usize;
                    assert(a != out@.len() - 1);
                    assert(ranked_before(d, t, out@[a] as int, out@[out@.len() - 1] as int));
                }
                assert(is_top(d, t, k, top));
                let other = choose|i: int| is_top(d, t, k, i);
                if other != top {
                    assert(ranked_before(d, t, other, top));
                    assert(ranked_before(d, t, top, other));
                }
            } else {
                if exists|i: int| is_top(d, t, k, i) {
                    let i = choose|i: int| is_top(d, t, k, i);
                    assert(out@.contains(i as usize));
                }
            }
        }
        out
    }
}

} // verus!
