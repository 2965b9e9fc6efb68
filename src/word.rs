use vstd::prelude::*;
use vstd::string::StrSliceExecFns;

verus! {

/// Number of letters in a word.
pub const N_LETTERS: usize = 5;

/// A word: exactly `N_LETTERS` letters, each in `'A'..='Z'` when produced by
/// [`str_to_word`].
pub type Word = [char; N_LETTERS];

/// `c` is an uppercase ASCII letter.
pub open spec fn is_letter(c: char) -> bool {
    'A' <= c <= 'Z'
}

/// Position of a letter in the alphabet (`'A'` is 0).
pub open spec fn letter_index(c: char) -> int {
    c as int - 'A' as int
}

/// Every element of `s` is an uppercase ASCII letter.
pub open spec fn all_letters(s: Seq<char>) -> bool {
    forall|i: int| 0 <= i < s.len() ==> is_letter(#[trigger] s[i])
}

/// A valid word: every slot holds an uppercase ASCII letter.
pub open spec fn is_word(w: Word) -> bool {
    all_letters(w@)
}

/// What a token that is already in upper case parses to: a word exactly
/// when it has `N_LETTERS` characters, all of them letters.
pub open spec fn parse_upper(s: Seq<char>) -> Option<Seq<char>> {
    if s.len() == N_LETTERS && all_letters(s) {
        Some(s)
    } else {
        None
    }
}

/// The upper-case form of a string, as `str::to_uppercase` computes it.
pub uninterp spec fn upper_of(s: Seq<char>) -> Seq<char>;

/// Relies on `str::to_uppercase`: the result depends on the characters
/// alone, and a string of uppercase ASCII letters has no other upper-case
/// form than itself.
#[verifier::external_body]
pub(crate) fn to_upper(s: &str) -> (r: String)
    ensures
        r@ == upper_of(s@),
        all_letters(s@) ==> r@ == s@,
{
    s.to_uppercase()
}

/// Relies on `String`'s `FromIterator<char>`: collecting characters yields
/// the string made of those characters in order.
#[verifier::external_body]
fn collect_chars(w: &Word) -> (r: String)
    ensures
        r@ == w@,
{
    w.iter().collect::<String>()
}

/// The alphabet position of a letter, as an index into a 26-entry table.
pub fn letter_idx(c: char) -> (r: usize)
    requires
        is_letter(c),
    ensures
        r == letter_index(c),
        r < 26,
{
    (c as u32 - 'A' as u32) as usize
}

/// The letter at a position of the alphabet (0 gives `'A'`).
pub fn letter_at(l: usize) -> (c: char)
    requires
        l < 26,
    ensures
        is_letter(c),
        letter_index(c) == l,
{
    (65u8 + l as u8) as char
}

/// Reads a word from a token that is already in upper case.
pub fn word_from_upper(s: &str) -> (r: Option<Word>)
    ensures
        match parse_upper(s@) {
            Some(w) => r.is_some() && r.unwrap()@ == w,
            None => r.is_none(),
        },
{
    let n = s.unicode_len();
    if n != N_LETTERS {
        return None;
    }
    let mut word: Word = ['A'; N_LETTERS];
    let mut i: usize = 0;
    while i < N_LETTERS
        invariant
            n == N_LETTERS,
            s@.len() == N_LETTERS,
            i <= N_LETTERS,
            forall|j: int| 0 <= j < i ==> word@[j] == s@[j] && is_letter(#[trigger] s@[j]),
        decreases N_LETTERS - i,
    {
        let c = s.get_char(i);
        if !('A' <= c && c <= 'Z') {
            return None;
        }
        word[i] = c;
        i = i + 1;
    }
    assert(word@ =~= s@);
    Some(word)
}

/// Reads a word from a token in any case: the token, in upper case, must
/// have exactly `N_LETTERS` characters, all in `'A'..='Z'`.
pub fn str_to_word(s: &str) -> (r: Option<Word>)
    ensures
        match parse_upper(upper_of(s@)) {
            Some(w) => r.is_some() && r.unwrap()@ == w,
            None => r.is_none(),
        },
        r.is_some() ==> is_word(r.unwrap()),
        all_letters(s@) ==> (r.is_some() <==> s@.len() == N_LETTERS),
        all_letters(s@) && r.is_some() ==> r.unwrap()@ == s@,
{
    let upper = to_upper(s);
    word_from_upper(upper.as_str())
}

/// The text of a word.
pub fn word_to_string(word: Word) -> (r: String)
    ensures
        r@ == word@,
{
    collect_chars(&word)
}

/// A token of `N_LETTERS` uppercase letters reads as the word with those
/// letters, and the text of a valid word reads back as that word: with the
/// `ensures` of [`str_to_word`] and [`word_to_string`], parsing then
/// formatting reproduces such a token, and formatting then parsing
/// reproduces such a word.
pub proof fn lemma_round_trip(t: Seq<char>, w: Word)
    requires
        t.len() == N_LETTERS,
        all_letters(t),
        is_word(w),
    ensures
        parse_upper(t) == Some(t),
        parse_upper(w@) == Some(w@),
{
}

} // verus!
