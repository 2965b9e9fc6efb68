use vstd::prelude::*;
use crate::word::{N_LETTERS, Word, is_letter, is_word, letter_idx, letter_index};

verus! {

/// Number of letters in the alphabet.
pub const N_ALPHABET: usize = 26;

/// Per-slot letter counts: `[slot][letter index]`.
pub type LetterHists = [[u64; N_ALPHABET]; N_LETTERS];

/// The counts of a histogram as a table of integers.
pub open spec fn table(h: LetterHists) -> Seq<Seq<int>> {
    Seq::new(N_LETTERS as nat, |s: int| Seq::new(N_ALPHABET as nat, |l: int| h[s][l] as int))
}

/// Every word of the list is valid.
pub open spec fn all_words(dict: Seq<Word>) -> bool {
    forall|i: int| 0 <= i < dict.len() ==> is_word(#[trigger] dict[i])
}

/// Number of words of `dict` whose letter at slot `s` has alphabet index `l`.
pub open spec fn slot_count(dict: Seq<Word>, s: int, l: int) -> nat
    decreases dict.len(),
{
    if dict.len() == 0 {
        0
    } else {
        slot_count(dict.drop_last(), s, l) + if letter_index(dict.last()[s]) == l {
            1nat
        } else {
            0nat
        }
    }
}

/// The table of per-slot letter counts over a list of words.
pub open spec fn counts_of(dict: Seq<Word>) -> Seq<Seq<int>> {
    Seq::new(
        N_LETTERS as nat,
        |s: int| Seq::new(N_ALPHABET as nat, |l: int| slot_count(dict, s, l) as int),
    )
}

/// Sum, over the first `n` slots of `w`, of the count of `w`'s letter there.
pub open spec fn slot_total(w: Seq<char>, t: Seq<Seq<int>>, n: int) -> int
    decreases n,
{
    if n <= 0 {
        0
    } else {
        slot_total(w, t, n - 1) + t[n - 1][letter_index(w[n - 1])]
    }
}

/// Number of slots among the first `n` of `w` whose letter already occurs
/// at an earlier slot.
pub open spec fn repeats_in(w: Seq<char>, n: int) -> int
    decreases n,
{
    if n <= 0 {
        0
    } else {
        repeats_in(w, n - 1) + if w.take(n - 1).contains(w[n - 1]) {
            1int
        } else {
            0int
        }
    }
}

/// The desirability of a word: the slot counts of its letters, summed, then
/// divided (rounding down) by one more than the number of repeated letters.
pub open spec fn score(w: Seq<char>, t: Seq<Seq<int>>) -> int {
    slot_total(w, t, N_LETTERS as int) / (1 + repeats_in(w, N_LETTERS as int))
}

/// No count exceeds a fifth of `u64::MAX`, so that five of them add up
/// without overflow.
pub open spec fn hist_bounded(h: LetterHists) -> bool {
    forall|s: int, l: int|
        0 <= s < N_LETTERS && 0 <= l < N_ALPHABET ==> #[trigger] h[s][l] <= u64::MAX / 5
}

proof fn lemma_slot_total_grows(w: Seq<char>, h: LetterHists, i: int, n: int)
    requires
        0 <= i <= n <= N_LETTERS,
        w.len() == N_LETTERS,
        forall|k: int| 0 <= k < N_LETTERS ==> is_letter(#[trigger] w[k]),
    ensures
        slot_total(w, table(h), i) <= slot_total(w, table(h), n),
    decreases n - i,
{
    if i < n {
        lemma_slot_total_grows(w, h, i, n - 1);
        assert(table(h)[n - 1][letter_index(w[n - 1])] >= 0);
    }
}

/// With bounded counts, the slot total of a valid word fits in a `u64`.
pub proof fn lemma_bounded_total_fits(w: Word, h: LetterHists, n: int)
    requires
        hist_bounded(h),
        is_word(w),
        0 <= n <= N_LETTERS,
    ensures
        0 <= slot_total(w@, table(h), n) <= n * (u64::MAX / 5),
    decreases n,
{
    if n > 0 {
        lemma_bounded_total_fits(w, h, n - 1);
        let l = letter_index(w@[n - 1]);
        assert(h[n - 1][l] <= u64::MAX / 5);
    }
}

/// Scores `word` against the histogram: the sum over the slots of the count
/// of the word's letter at that slot, divided by one more than the number of
/// letters that repeat an earlier one.
pub fn score_word(word: Word, letter_hists: &LetterHists) -> (r: u64)
    requires
        is_word(word),
        slot_total(word@, table(*letter_hists), N_LETTERS as int) <= u64::MAX,
    ensures
        r == score(word@, table(*letter_hists)),
{
    let ghost w = word@;
    let ghost t = table(*letter_hists);
    let mut letter_used = [false; N_ALPHABET];
    let mut repeats: u64 = 1;
    let mut total: u64 = 0;
    let mut slot: usize = 0;
    while slot < N_LETTERS
        invariant
            slot <= N_LETTERS,
            w == word@,
            t == table(*letter_hists),
            is_word(word),
            slot_total(w, t, N_LETTERS as int) <= u64::MAX,
            total == slot_total(w, t, slot as int),
            repeats == 1 + repeats_in(w, slot as int),
            1 <= repeats <= 1 + slot,
            forall|l: int|
                0 <= l < N_ALPHABET ==> (#[trigger] letter_used@[l] <==> exists|j: int|
                    0 <= j < slot && letter_index(w[j]) == l),
        decreases N_LETTERS - slot,
    {
        let letter = word[slot];
        assert(is_letter(w[slot as int]));
        let idx = letter_idx(letter);
        assert(w.take(slot as int).contains(w[slot as int]) <==> letter_used@[idx as int]) by {
            if letter_used@[idx as int] {
                let j = choose|j: int| 0 <= j < slot && letter_index(w[j]) == idx;
                assert(w.take(slot as int)[j] == w[slot as int]);
            }
            if w.take(slot as int).contains(w[slot as int]) {
                let j = choose|j: int|
                    0 <= j < slot && #[trigger] w.take(slot as int)[j] == w[slot as int];
                assert(letter_index(w[j]) == idx);
            }
        }
        if letter_used[idx] {
            repeats = repeats + 1;
        }
        proof {
            lemma_slot_total_grows(w, *letter_hists, slot as int + 1, N_LETTERS as int);
        }
        total = total + letter_hists[slot][idx];
        letter_used[idx] = true;
        slot = slot + 1;
    }
    total / repeats
}

proof fn lemma_slot_count_le(dict: Seq<Word>, s: int, l: int)
    ensures
        slot_count(dict, s, l) <= dict.len(),
    decreases dict.len(),
{
    if dict.len() > 0 {
        lemma_slot_count_le(dict.drop_last(), s, l);
    }
}

/// Counts, for each slot and each letter, the words of `dict` that hold
/// that letter at that slot. Every word must be valid: a word with another
/// symbol means a corrupt word list.
pub fn calc_letter_hist(dict: &[Word]) -> (h: LetterHists)
    requires
        all_words(dict@),
        dict@.len() <= u64::MAX,
    ensures
        table(h) == counts_of(dict@),
        forall|s: int, l: int|
            0 <= s < N_LETTERS && 0 <= l < N_ALPHABET ==> #[trigger] h[s][l] <= dict@.len(),
{
    let mut h: LetterHists = [[0u64; N_ALPHABET]; N_LETTERS];
    let mut i: usize = 0;
    while i < dict.len()
        invariant
            i <= dict@.len(),
            dict@.len() <= u64::MAX,
            all_words(dict@),
            forall|s: int, l: int|
                0 <= s < N_LETTERS && 0 <= l < N_ALPHABET ==> #[trigger] h[s][l] == slot_count(
                    dict@.take(i as int),
                    s,
                    l,
                ),
        decreases dict@.len() - i,
    {
        let word = dict[i];
        assert(is_word(dict@[i as int]));
        let ghost before = dict@.take(i as int);
        let ghost after = dict@.take(i as int + 1);
        assert(after.drop_last() =~= before);
        assert(after.last() == word);
        let mut slot: usize = 0;
        while slot < N_LETTERS
            invariant
                slot <= N_LETTERS,
                i < dict@.len(),
                dict@.len() <= u64::MAX,
                word == dict@[i as int],
                is_word(word),
                after.drop_last() == before,
                after.last() == word,
                before.len() == i,
                after.len() == i + 1,
                forall|s: int, l: int|
                    0 <= s < N_LETTERS && 0 <= l < N_ALPHABET ==> #[trigger] h[s][l] == if s
                        < slot {
                        slot_count(after, s, l)
                    } else {
                        slot_count(before, s, l)
                    },
            decreases N_LETTERS - slot,
        {
            assert(is_letter(word@[slot as int]));
            let idx = letter_idx(word[slot]);
            proof {
                lemma_slot_count_le(before, slot as int, idx as int);
                assert forall|l: int| 0 <= l < N_ALPHABET implies slot_count(after, slot as int, l)
                    == slot_count(before, slot as int, l) + if l == idx {
                    1int
                } else {
                    0int
                } by {
                    assert(letter_index(after.last()[slot as int]) == idx);
                }
            }
            assert(h[slot as int][idx as int] <= i);
            let mut row = h[slot];
            row[idx] = row[idx] + 1;
            h[slot] = row;
            slot = slot + 1;
        }
        i = i + 1;
    }
    assert(dict@.take(dict@.len() as int) =~= dict@);
    proof {
        assert forall|s: int, l: int|
            0 <= s < N_LETTERS && 0 <= l < N_ALPHABET implies #[trigger] h[s][l] <= dict@.len() by {
            lemma_slot_count_le(dict@, s, l);
        }
    }
    assert(table(h) =~~= counts_of(dict@));
    h
}

/// The first word of `dict` with the highest score against the histogram
/// of `dict` itself: a good opening guess.
pub fn calc_optimal_first_word(dict: &[Word]) -> (r: Word)
    requires
        dict@.len() > 0,
        dict@.len() <= u64::MAX / 5,
        all_words(dict@),
    ensures
        forall|j: int|
            0 <= j < dict@.len() ==> score(#[trigger] dict@[j]@, counts_of(dict@)) <= score(
                r@,
                counts_of(dict@),
            ),
        exists|i: int|
            0 <= i < dict@.len() && r == dict@[i] && forall|j: int|
                0 <= j < i ==> score(#[trigger] dict@[j]@, counts_of(dict@)) < score(
                    r@,
                    counts_of(dict@),
                ),
{
    let h = calc_letter_hist(dict);
    let ghost t = counts_of(dict@);
    assert(hist_bounded(h));
    let mut best_word = dict[0];
    let mut best_score: u64 = 0;
    let ghost mut best_idx: int = 0;
    let mut i: usize = 0;
    while i < dict.len()
        invariant
            0 < dict@.len() <= u64::MAX / 5,
            i <= dict@.len(),
            all_words(dict@),
            hist_bounded(h),
            table(h) == t,
            0 <= best_idx < dict@.len(),
            best_idx <= i,
            best_word == dict@[best_idx],
            best_score == 0 ==> best_idx == 0,
            best_score > 0 ==> score(best_word@, t) == best_score,
            forall|j: int| 0 <= j < best_idx ==> score(#[trigger] dict@[j]@, t) < best_score,
            forall|j: int| 0 <= j < i ==> 0 <= score(#[trigger] dict@[j]@, t) <= best_score,
        decreases dict@.len() - i,
    {
        let word = dict[i];
        assert(is_word(dict@[i as int]));
        proof {
            lemma_bounded_total_fits(word, h, N_LETTERS as int);
        }
        let sc = score_word(word, &h);
        if sc > best_score {
            best_score = sc;
            best_word = word;
            proof {
                best_idx = i as int;
            }
        }
        i = i + 1;
    }
    best_word
}

} // verus!
