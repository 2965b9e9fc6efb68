use vstd::prelude::*;
use vstd::string::StrSliceExecFns;
use crate::game::LetterResult;
use crate::word::{N_LETTERS, Word, to_upper, upper_of};

verus! {

/// The verdict on slot `i` of the guess `w` when the player names the
/// letters shown misplaced and those shown correct: a letter named correct
/// wins over one named misplaced.
pub open spec fn mark_verdict(w: Seq<char>, misplaced: Seq<char>, correct: Seq<char>, i: int) -> LetterResult {
    if correct.contains(w[i]) {
        LetterResult::Correct
    } else if misplaced.contains(w[i]) {
        LetterResult::Misplaced
    } else {
        LetterResult::NonMember
    }
}

/// The verdicts on every slot of `w` from the named letters.
pub open spec fn marks_result(w: Seq<char>, misplaced: Seq<char>, correct: Seq<char>) -> Seq<LetterResult> {
    Seq::new(N_LETTERS as nat, |i: int| mark_verdict(w, misplaced, correct, i))
}

/// The verdict that one code character stands for: `g` correct, `y`
/// misplaced, anything else not a member.
pub open spec fn code_verdict(c: char) -> LetterResult {
    if c == 'g' {
        LetterResult::Correct
    } else if c == 'y' {
        LetterResult::Misplaced
    } else {
        LetterResult::NonMember
    }
}

/// Whether `c` occurs in `s`.
pub fn str_contains(s: &str, c: char) -> (r: bool)
    ensures
        r == s@.contains(c),
{
    let n = s.unicode_len();
    let mut i: usize = 0;
    while i < n
        invariant
            n == s@.len(),
            i <= n,
            forall|j: int| 0 <= j < i ==> s@[j] != c,
        decreases n - i,
    {
        if s.get_char(i) == c {
            return true;
        }
        i = i + 1;
    }
    false
}

/// The verdicts on `word` from the letters named misplaced and correct,
/// both already in upper case.
pub fn result_from_upper_marks(word: Word, misplaced: &str, correct: &str) -> (r: [LetterResult; N_LETTERS])
    ensures
        r@ == marks_result(word@, misplaced@, correct@),
{
    let mut result = [LetterResult::NonMember; N_LETTERS];
    let mut i: usize = 0;
    while i < N_LETTERS
        invariant
            i <= N_LETTERS,
            forall|j: int| 0 <= j < i ==> result@[j] == mark_verdict(word@, misplaced@, correct@, j),
        decreases N_LETTERS - i,
    {
        if str_contains(correct, word[i]) {
            result[i] = LetterResult::Correct;
        } else if str_contains(misplaced, word[i]) {
            result[i] = LetterResult::Misplaced;
        } else {
            result[i] = LetterResult::NonMember;
        }
        i = i + 1;
    }
    assert(result@ =~= marks_result(word@, misplaced@, correct@));
    result
}

/// The verdicts on `word` from two lines of player input: the letters shown
/// misplaced and the letters shown correct, in any case.
pub fn result_from_marks(word: Word, misplaced: &str, correct: &str) -> (r: [LetterResult; N_LETTERS])
    ensures
        r@ == marks_result(word@, upper_of(misplaced@), upper_of(correct@)),
{
    let m = to_upper(misplaced);
    let c = to_upper(correct);
    result_from_upper_marks(word, m.as_str(), c.as_str())
}

/// The verdicts from one line of codes, one per slot: `g` correct, `y`
/// misplaced, anything else not a member. `None` unless the line has
/// exactly one code per slot.
pub fn result_from_codes(codes: &str) -> (r: Option<[LetterResult; N_LETTERS]>)
    ensures
        r.is_some() <==> codes@.len() == N_LETTERS,
        r.is_some() ==> forall|i: int|
            0 <= i < N_LETTERS ==> r.unwrap()@[i] == code_verdict(#[trigger] codes@[i]),
{
    let n = codes.unicode_len();
    if n != N_LETTERS {
        return None;
    }
    let mut result = [LetterResult::NonMember; N_LETTERS];
    let mut i: usize = 0;
    while i < N_LETTERS
        invariant
            i <= N_LETTERS,
            codes@.len() == N_LETTERS,
            forall|j: int| 0 <= j < i ==> result@[j] == code_verdict(codes@[j]),
        decreases N_LETTERS - i,
    {
        let c = codes.get_char(i);
        if c == 'g' {
            result[i] = LetterResult::Correct;
        } else if c == 'y' {
            result[i] = LetterResult::Misplaced;
        } else {
            result[i] = LetterResult::NonMember;
        }
        i = i + 1;
    }
    Some(result)
}

} // verus!
